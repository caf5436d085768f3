use murmur::screen_lists::{
    conflict_folders, local_device, other_devices, presence_label, ConflictFolder, DeviceRow, Presence,
};
use murmur::app_flow::{app_step, AppAction, AppEvent, AppState, ListKind, Request, Screen, SetupStep, StorageStats};
use murmur::folder_view::{folder_rows, FileRow, SortField};
use murmur::launch::{exit_text, launch_step, ChildStatus, LaunchAction, LaunchEvent, LaunchState, POLL_ATTEMPTS};

fn row(path: &str, size: u64, mime: Option<&str>) -> FileRow {
    FileRow {
        folder_id: "f".to_string(),
        path: path.to_string(),
        size,
        mime_type: mime.map(|m| m.to_string()),
    }
}

fn paths(rows: &[FileRow]) -> Vec<String> {
    rows.iter().map(|r| r.path.clone()).collect()
}

fn sample_rows() -> Vec<FileRow> {
    vec![
        row("b/Photo.JPG", 300, Some("image/jpeg")),
        row("a/notes.txt", 10, Some("text/plain")),
        row("c/photo-2.png", 300, Some("image/png")),
        row("d/readme", 50, None),
    ]
}

#[test]
fn test_folder_rows_search_ignores_case() {
    let rows = sample_rows();
    let out = folder_rows(&rows, "PHOTO", SortField::Name, true);
    assert_eq!(paths(&out), vec!["b/Photo.JPG", "c/photo-2.png"]);
    let all = folder_rows(&rows, "", SortField::Name, true);
    assert_eq!(paths(&all), vec!["a/notes.txt", "b/Photo.JPG", "c/photo-2.png", "d/readme"]);
    assert!(folder_rows(&rows, "zzz", SortField::Name, true).is_empty());
}

#[test]
fn test_folder_rows_sort_by_size_keeps_order_of_equal_sizes() {
    let rows = sample_rows();
    let up = folder_rows(&rows, "", SortField::Size, true);
    assert_eq!(paths(&up), vec!["a/notes.txt", "d/readme", "b/Photo.JPG", "c/photo-2.png"]);
    let down = folder_rows(&rows, "", SortField::Size, false);
    assert_eq!(paths(&down), vec!["b/Photo.JPG", "c/photo-2.png", "d/readme", "a/notes.txt"]);
}

#[test]
fn test_folder_rows_sort_by_type() {
    let rows = sample_rows();
    let up = folder_rows(&rows, "", SortField::Type, true);
    assert_eq!(paths(&up), vec!["d/readme", "b/Photo.JPG", "c/photo-2.png", "a/notes.txt"]);
    let down = folder_rows(&rows, "", SortField::Name, false);
    assert_eq!(paths(&down), vec!["d/readme", "c/photo-2.png", "b/Photo.JPG", "a/notes.txt"]);
}

#[test]
fn test_exit_text_uses_last_nonblank_line() {
    assert_eq!(exit_text("exit status: 1", ""), "murmurd exited with exit status: 1");
    assert_eq!(exit_text("exit status: 1", " \n\t\n"), "murmurd exited with exit status: 1");
    assert_eq!(
        exit_text("exit status: 2", "starting\nError: bad config\r\n\n  \n"),
        "murmurd exited with exit status: 2: Error: bad config"
    );
    assert_eq!(exit_text("x", "one\n  two  "), "murmurd exited with x:   two  ");
}

#[test]
fn test_launch_uses_running_daemon() {
    let (s, a) = launch_step(LaunchState::Start, LaunchEvent::DaemonProbed { running: true });
    assert_eq!(s, LaunchState::Finished);
    assert!(matches!(a, LaunchAction::Finish(Ok(()))));
}

#[test]
fn test_launch_polls_then_succeeds() {
    let (s, a) = launch_step(LaunchState::Start, LaunchEvent::DaemonProbed { running: false });
    assert_eq!(s, LaunchState::Preparing);
    assert!(matches!(a, LaunchAction::Prepare));
    let (s, a) = launch_step(s, LaunchEvent::Prepared(Ok(())));
    assert_eq!(s, LaunchState::Waiting { attempt: 0 });
    assert!(matches!(a, LaunchAction::SleepThenCheckChild));
    let (s, a) = launch_step(s, LaunchEvent::ChildChecked(ChildStatus::Running));
    assert_eq!(s, LaunchState::Probing { attempt: 0 });
    assert!(matches!(a, LaunchAction::ProbeSocket));
    let (s, a) = launch_step(s, LaunchEvent::SocketProbed { ready: false });
    assert_eq!(s, LaunchState::Waiting { attempt: 1 });
    assert!(matches!(a, LaunchAction::SleepThenCheckChild));
    let (s, _) = launch_step(s, LaunchEvent::ChildChecked(ChildStatus::Running));
    let (s, a) = launch_step(s, LaunchEvent::SocketProbed { ready: true });
    assert_eq!(s, LaunchState::Finished);
    assert!(matches!(a, LaunchAction::Finish(Ok(()))));
}

#[test]
fn test_launch_gives_up_after_last_attempt() {
    let last = LaunchState::Probing { attempt: POLL_ATTEMPTS - 1 };
    let (s, a) = launch_step(last, LaunchEvent::SocketProbed { ready: false });
    assert_eq!(s, LaunchState::Finished);
    match a {
        LaunchAction::Finish(Err(m)) => assert_eq!(m, "murmurd did not become ready in 10 seconds — check logs"),
        _ => panic!("expected a failure"),
    }
}

#[test]
fn test_launch_reports_exit_and_errors() {
    let (s, a) = launch_step(
        LaunchState::Waiting { attempt: 3 },
        LaunchEvent::ChildChecked(ChildStatus::Exited {
            status: "exit status: 1".to_string(),
            stderr: "Error: port in use\n".to_string(),
        }),
    );
    assert_eq!(s, LaunchState::Finished);
    match a {
        LaunchAction::Finish(Err(m)) => assert_eq!(m, "murmurd exited with exit status: 1: Error: port in use"),
        _ => panic!("expected a failure"),
    }
    let (_, a) = launch_step(
        LaunchState::Waiting { attempt: 0 },
        LaunchEvent::ChildChecked(ChildStatus::CheckFailed("gone".to_string())),
    );
    match a {
        LaunchAction::Finish(Err(m)) => assert_eq!(m, "check murmurd process: gone"),
        _ => panic!("expected a failure"),
    }
    let (s, a) = launch_step(LaunchState::Preparing, LaunchEvent::Prepared(Err("write mnemonic: denied".to_string())));
    assert_eq!(s, LaunchState::Finished);
    assert!(matches!(a, LaunchAction::Finish(Err(ref m)) if m == "write mnemonic: denied"));
    let (s, a) = launch_step(LaunchState::Finished, LaunchEvent::SocketProbed { ready: true });
    assert_eq!(s, LaunchState::Finished);
    assert!(matches!(a, LaunchAction::Idle));
}

fn fresh_state() -> AppState {
    AppState {
        screen: Screen::DaemonCheck,
        daemon_running: None,
        daemon_error: None,
        daemon_launching: false,
        setup_step: SetupStep::ChooseMode,
        device_name: String::new(),
        mnemonic_input: String::new(),
        join_mode: false,
        setup_error: None,
        search_query: String::new(),
        sort_field: SortField::Name,
        sort_ascending: true,
        renaming_folder_id: None,
        rename_input: String::new(),
        leave_network_confirm: false,
        status_device_id: String::new(),
        status_device_name: String::new(),
        status_network_id: String::new(),
        status_peer_count: 0,
        status_dag_entries: 0,
        status_uptime_secs: 0,
        selected_folder_id: None,
        folder_paused: false,
        sync_paused: false,
        history_folder_id: String::new(),
        history_path: String::new(),
        cfg_auto_approve: false,
        cfg_mdns: false,
        cfg_upload_throttle: 0,
        cfg_download_throttle: 0,
        settings_toast: None,
        folder_ignore_patterns: String::new(),
        storage_stats: None,
        connectivity_result: None,
    }
}

#[test]
fn test_app_without_daemon_or_network_shows_setup() {
    let mut s = fresh_state();
    let a = app_step(&mut s, AppEvent::DaemonChecked { running: false, config_exists: false });
    assert!(matches!(a, AppAction::Nothing));
    assert_eq!(s.screen, Screen::Setup);
    assert_eq!(s.daemon_running, Some(false));
}

#[test]
fn test_app_relaunches_existing_network() {
    let mut s = fresh_state();
    s.daemon_error = Some("old".to_string());
    let a = app_step(&mut s, AppEvent::DaemonChecked { running: false, config_exists: true });
    assert!(matches!(a, AppAction::LaunchDaemon { name: None, mnemonic: None }));
    assert!(s.daemon_launching);
    assert_eq!(s.daemon_error, None);
    let a = app_step(&mut s, AppEvent::DaemonChecked { running: false, config_exists: true });
    assert!(matches!(a, AppAction::Nothing));
    let a = app_step(&mut s, AppEvent::DaemonLaunched(Err("murmurd exited with 1".to_string())));
    assert!(matches!(a, AppAction::Nothing));
    assert_eq!(s.screen, Screen::DaemonCheck);
    assert_eq!(s.daemon_error.as_deref(), Some("murmurd exited with 1"));
    assert!(!s.daemon_launching);
    let a = app_step(&mut s, AppEvent::RetryDaemonCheck);
    assert!(matches!(a, AppAction::CheckDaemon));
    assert_eq!(s.daemon_error, None);
    assert_eq!(s.daemon_running, None);
}

#[test]
fn test_app_setup_join_flow() {
    let mut s = fresh_state();
    app_step(&mut s, AppEvent::SetupChooseJoin);
    assert!(s.join_mode);
    assert_eq!(s.setup_step, SetupStep::Form);
    app_step(&mut s, AppEvent::DeviceNameChanged("Laptop".to_string()));
    app_step(&mut s, AppEvent::MnemonicInputChanged("abandon ability".to_string()));
    let a = app_step(&mut s, AppEvent::StartDaemon);
    match a {
        AppAction::LaunchDaemon { name, mnemonic } => {
            assert_eq!(name.as_deref(), Some("Laptop"));
            assert_eq!(mnemonic.as_deref(), Some("abandon ability"));
        },
        _ => panic!("expected a launch"),
    }
    assert_eq!(s.screen, Screen::DaemonCheck);
    assert!(s.daemon_launching);
    app_step(&mut s, AppEvent::SetupBack);
    assert_eq!(s.setup_step, SetupStep::ChooseMode);
    app_step(&mut s, AppEvent::SetupChooseCreate);
    let a = app_step(&mut s, AppEvent::StartDaemon);
    assert!(matches!(a, AppAction::LaunchDaemon { mnemonic: None, .. }));
    let a = app_step(&mut s, AppEvent::DaemonLaunched(Ok(())));
    assert!(matches!(a, AppAction::FetchAll));
    assert_eq!(s.screen, Screen::Folders);
}

#[test]
fn test_app_navigation_and_sorting() {
    let mut s = fresh_state();
    let a = app_step(&mut s, AppEvent::Navigate(Screen::Devices));
    assert!(matches!(a, AppAction::FetchFor(Screen::Devices)));
    assert_eq!(s.screen, Screen::Devices);
    let a = app_step(&mut s, AppEvent::Navigate(Screen::RecentFiles));
    assert!(matches!(a, AppAction::Nothing));
    app_step(&mut s, AppEvent::SortBy(SortField::Name));
    assert!(!s.sort_ascending);
    app_step(&mut s, AppEvent::SortBy(SortField::Size));
    assert_eq!(s.sort_field, SortField::Size);
    assert!(s.sort_ascending);
    app_step(&mut s, AppEvent::SearchQueryChanged("abc".to_string()));
    assert_eq!(s.search_query, "abc");
    let a = app_step(&mut s, AppEvent::DaemonChecked { running: true, config_exists: false });
    assert!(matches!(a, AppAction::ConnectAfterDelay));
    let a = app_step(&mut s, AppEvent::DaemonConnected);
    assert!(matches!(a, AppAction::FetchAll));
    assert_eq!(s.screen, Screen::Folders);
}

#[test]
fn test_app_rename_folder_flow() {
    let mut s = fresh_state();
    assert!(matches!(app_step(&mut s, AppEvent::SubmitRenameFolder), AppAction::Nothing));
    app_step(&mut s, AppEvent::StartRenameFolder("ab12".to_string(), "Photos".to_string()));
    assert_eq!(s.rename_input, "Photos");
    app_step(&mut s, AppEvent::RenameInputChanged("Pictures".to_string()));
    match app_step(&mut s, AppEvent::SubmitRenameFolder) {
        AppAction::RenameFolder { folder_id, name } => {
            assert_eq!(folder_id, "ab12");
            assert_eq!(name, "Pictures");
        },
        _ => panic!("expected a rename"),
    }
    assert_eq!(s.renaming_folder_id, None);
    assert_eq!(s.rename_input, "");
    app_step(&mut s, AppEvent::StartRenameFolder("cd".to_string(), "X".to_string()));
    app_step(&mut s, AppEvent::CancelRenameFolder);
    assert_eq!(s.renaming_folder_id, None);
    assert_eq!(s.rename_input, "");
}

#[test]
fn test_app_leave_network_flow() {
    let mut s = fresh_state();
    s.screen = Screen::Settings;
    s.setup_step = SetupStep::Form;
    app_step(&mut s, AppEvent::LeaveNetworkStart);
    assert!(s.leave_network_confirm);
    app_step(&mut s, AppEvent::LeaveNetworkCancel);
    assert!(!s.leave_network_confirm);
    app_step(&mut s, AppEvent::LeaveNetworkStart);
    assert!(matches!(app_step(&mut s, AppEvent::LeaveNetworkConfirm), AppAction::LeaveNetwork));
    assert!(!s.leave_network_confirm);
    assert!(matches!(app_step(&mut s, AppEvent::LeftNetwork), AppAction::ForgetNetwork));
    assert_eq!(s.screen, Screen::Setup);
    assert_eq!(s.setup_step, SetupStep::ChooseMode);
    assert_eq!(s.daemon_running, Some(false));
}

#[test]
fn test_app_daemon_events_refresh() {
    let mut s = fresh_state();
    assert!(matches!(app_step(&mut s, AppEvent::DaemonEvent("dag_synced".to_string())), AppAction::FetchFolders));
    assert!(matches!(
        app_step(&mut s, AppEvent::DaemonEvent("conflict_detected".to_string())),
        AppAction::FetchConflicts
    ));
    assert!(matches!(app_step(&mut s, AppEvent::DaemonEvent("device_approved".to_string())), AppAction::Nothing));
    s.screen = Screen::Devices;
    assert!(matches!(app_step(&mut s, AppEvent::DaemonEvent("device_approved".to_string())), AppAction::FetchDevices));
    assert!(matches!(
        app_step(&mut s, AppEvent::DaemonEvent("folder_created".to_string())),
        AppAction::FetchFor(Screen::Folders)
    ));
    assert!(matches!(app_step(&mut s, AppEvent::DaemonEvent("blob_received".to_string())), AppAction::Nothing));
}

#[test]
fn test_app_failed_reply_shown_only_while_daemon_runs() {
    let mut s = fresh_state();
    s.daemon_running = Some(false);
    assert!(matches!(app_step(&mut s, AppEvent::ReplyFailed("connection refused".to_string())), AppAction::Nothing));
    assert_eq!(s.daemon_error, None);
    s.daemon_running = Some(true);
    app_step(&mut s, AppEvent::ReplyFailed("connection refused".to_string()));
    assert_eq!(s.daemon_error.as_deref(), Some("connection refused"));
    assert_eq!(s.screen, Screen::DaemonCheck);
}

#[test]
fn test_app_replies_fill_status_and_settings() {
    let mut s = fresh_state();
    app_step(
        &mut s,
        AppEvent::StatusReceived {
            device_id: "d1".to_string(),
            device_name: "Laptop".to_string(),
            network_id: "n1".to_string(),
            peer_count: 3,
            dag_entries: 42,
            uptime_secs: 90,
        },
    );
    assert_eq!(s.status_device_name, "Laptop");
    assert_eq!(s.status_peer_count, 3);
    assert_eq!(s.status_uptime_secs, 90);
    app_step(
        &mut s,
        AppEvent::ConfigReceived {
            auto_approve: true,
            mdns: true,
            upload_throttle: 100,
            download_throttle: 200,
            sync_paused: true,
            device_name: "Desk".to_string(),
        },
    );
    assert!(s.cfg_auto_approve && s.cfg_mdns && s.sync_paused);
    assert_eq!(s.cfg_download_throttle, 200);
    assert_eq!(s.status_device_name, "Desk");
    let stats = StorageStats {
        total_blob_count: 1,
        total_blob_bytes: 2,
        orphaned_blob_count: 3,
        orphaned_blob_bytes: 4,
        dag_entry_count: 5,
    };
    app_step(&mut s, AppEvent::StorageStatsReceived(stats));
    assert_eq!(s.storage_stats, Some(stats));
    app_step(&mut s, AppEvent::ConnectivityReceived { relay_reachable: true, latency_ms: Some(12) });
    assert_eq!(s.connectivity_result, Some((true, Some(12))));
    let a = app_step(&mut s, AppEvent::Reclaimed { blobs_removed: 7, freed_text: "1.5 MB".to_string() });
    assert!(matches!(a, AppAction::FetchStorageStats));
    assert_eq!(s.settings_toast.as_deref(), Some("Reclaimed 7 blobs, 1.5 MB freed"));
    assert!(matches!(app_step(&mut s, AppEvent::ListReceived(ListKind::Peers)), AppAction::StoreList(ListKind::Peers)));
    assert!(matches!(app_step(&mut s, AppEvent::GenericOk), AppAction::FetchFoldersAndConflicts));
    assert!(matches!(app_step(&mut s, AppEvent::GenericOther), AppAction::Nothing));
    assert!(matches!(app_step(&mut s, AppEvent::Tick), AppAction::FetchStatus));
}

#[test]
fn test_app_requests() {
    let mut s = fresh_state();
    let a = app_step(&mut s, AppEvent::ToggleGlobalSync);
    assert!(matches!(a, AppAction::Send(Request::PauseSync)));
    assert!(s.sync_paused);
    let a = app_step(&mut s, AppEvent::ToggleGlobalSync);
    assert!(matches!(a, AppAction::Send(Request::ResumeSync)));
    let a = app_step(&mut s, AppEvent::ToggleFolderSync("f1".to_string()));
    assert!(matches!(a, AppAction::Send(Request::PauseFolderSync { ref folder_id }) if folder_id == "f1"));
    let a = app_step(&mut s, AppEvent::ToggleAutoApprove);
    assert!(matches!(a, AppAction::Send(Request::SetAutoApprove { enabled: true })));
    let a = app_step(&mut s, AppEvent::SetThrottle(10, 20));
    assert!(matches!(
        a,
        AppAction::Send(Request::SetThrottle { upload_bytes_per_sec: 10, download_bytes_per_sec: 20 })
    ));
    let a = app_step(&mut s, AppEvent::ApproveDevice("dev".to_string()));
    assert!(matches!(a, AppAction::Send(Request::ApproveDevice { ref device_id, ref role }) if device_id == "dev" && role == "full"));
    app_step(&mut s, AppEvent::FolderIgnorePatternsChanged("*.tmp".to_string()));
    let a = app_step(&mut s, AppEvent::SaveIgnorePatterns("f1".to_string()));
    assert!(matches!(a, AppAction::Send(Request::SetIgnorePatterns { ref patterns, .. }) if patterns == "*.tmp"));
    let a = app_step(&mut s, AppEvent::SelectFolder("f2".to_string()));
    assert!(matches!(a, AppAction::OpenFolder(ref f) if f == "f2"));
    assert_eq!(s.screen, Screen::FolderDetail);
    let a = app_step(&mut s, AppEvent::ViewFileHistory { folder_id: "f2".to_string(), path: "a.txt".to_string() });
    assert!(matches!(a, AppAction::Send(Request::FileHistory { .. })));
    assert_eq!(s.screen, Screen::FileHistory);
    assert_eq!(s.history_path, "a.txt");
    let a = app_step(&mut s, AppEvent::UnsubscribeFolder("f2".to_string()));
    assert!(matches!(a, AppAction::Send(Request::UnsubscribeFolder { keep_local: true, .. })));
    assert_eq!(s.selected_folder_id, None);
    assert_eq!(s.screen, Screen::Folders);
    let a = app_step(&mut s, AppEvent::PickedFolderPath("f3".to_string(), "Docs".to_string(), Some("/tmp/d".to_string())));
    assert!(matches!(a, AppAction::Send(Request::SubscribeFolder { ref mode, .. }) if mode == "read-write"));
    assert!(matches!(app_step(&mut s, AppEvent::PickedFolderPath("f3".to_string(), "Docs".to_string(), None)), AppAction::Nothing));
    s.connectivity_result = Some((false, None));
    let a = app_step(&mut s, AppEvent::RunConnectivityCheck);
    assert!(matches!(a, AppAction::Send(Request::RunConnectivityCheck)));
    assert_eq!(s.connectivity_result, None);
}

#[test]
fn test_conflict_folder_rows_one_per_run() {
    let c = |id: &str, name: &str| ConflictFolder { folder_id: id.to_string(), folder_name: name.to_string() };
    let cs = vec![c("a", "Alpha"), c("a", "Alpha2"), c("b", "Beta"), c("a", "Alpha3")];
    let rows = conflict_folders(&cs);
    let want: Vec<(String, String)> = vec![
        ("a".to_string(), "Alpha".to_string()),
        ("b".to_string(), "Beta".to_string()),
        ("a".to_string(), "Alpha".to_string()),
    ];
    assert_eq!(rows, want);
    assert!(conflict_folders(&Vec::new()).is_empty());
}

#[test]
fn test_device_screen_selection() {
    let d = |id: &str| DeviceRow { device_id: id.to_string(), name: id.to_uppercase(), role: "full".to_string() };
    let devices = vec![d("x"), d("me"), d("y")];
    assert_eq!(local_device(&devices, "me"), Some(1));
    assert_eq!(local_device(&devices, "zz"), None);
    assert_eq!(other_devices(&devices, "me"), vec![0, 2]);
    let p = |id: &str, online: bool, seen: u64| Presence { device_id: id.to_string(), online, last_seen_unix: seen };
    let ps = vec![p("x", true, 0), p("y", false, 1000), p("z", false, 0)];
    assert_eq!(presence_label(&ps, "x", 5000), "Online");
    assert_eq!(presence_label(&ps, "y", 1000 + 7200), "2 hours ago");
    assert_eq!(presence_label(&ps, "z", 5000), "Never connected");
    assert_eq!(presence_label(&ps, "w", 5000), "Never connected");
}
