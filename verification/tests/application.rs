use std::io::{Error, ErrorKind};
use steam_accelerator::config::{
    cmd_err, AppConfig, AppState, StoredConfig, ALREADY_RUNNING, DEFAULT_PORT,
};
use steam_accelerator::desktop::{
    appindicator_available, certificate_dir, install_result, install_script, lists_tray_library,
    menu_action, tray_plan, MenuAction, TrayPlan, INSTALLED, NOT_INSTALLED, NO_DIRECTORY,
};
use steam_accelerator::failure::{is_benign, is_interruption, FailureKind};
use steam_accelerator::hosts::RouteTable;
use steam_accelerator::logs::{format_line, LogBuffer, LOG_LIMIT};
use steam_accelerator::pool::{SendAction, SendEvent, SendState, UpstreamPool};

#[test]
fn the_default_settings_list_the_usual_hosts() {
    let config = AppConfig::default();
    assert_eq!(config.hosts.len(), 22);
    assert_eq!(config.hosts[0], "store.steampowered.com");
    assert_eq!(config.hosts[12], "github.com");
    assert_eq!(config.hosts[21], "cam.githubusercontent.com");
    assert!(config.routes.list().is_empty());
}

#[test]
fn missing_settings_are_written() {
    let (config, write) = AppConfig::load_config(StoredConfig::Missing);
    assert!(write);
    assert_eq!(config.hosts, AppConfig::default().hosts);
    let (config, write) = AppConfig::load_config(StoredConfig::Malformed);
    assert!(!write);
    assert_eq!(config.hosts, AppConfig::default().hosts);
}

#[test]
fn new_defaults_appear_in_old_settings() {
    let mut routes = RouteTable::new();
    routes.insert("a.com".to_string(), "b.com:1".to_string());
    let old = AppConfig { hosts: vec!["mine.org".to_string(), "github.com".to_string()], routes };
    let (config, write) = AppConfig::load_config(StoredConfig::Found(old));
    assert!(!write);
    assert_eq!(config.hosts.len(), 23);
    assert_eq!(config.hosts[0], "mine.org");
    assert_eq!(config.hosts[1], "github.com");
    assert_eq!(config.hosts[2], "store.steampowered.com");
    assert_eq!(config.hosts.iter().filter(|h| h.as_str() == "github.com").count(), 1);
    assert_eq!(config.routes.get("a.com"), Some(&"b.com:1".to_string()));
    let before = config.hosts.clone();
    let (again, _) = AppConfig::load_config(StoredConfig::Found(config));
    assert_eq!(again.hosts, before);
}

#[test]
fn chosen_hosts_are_accelerated() {
    let mut state: AppState<u32> = AppState::new(AppConfig::default());
    assert!(state.set_hosts(&["Example.COM.:443".to_string(), "b.org".to_string()]).is_none());
    assert_eq!(state.config.hosts, vec!["example.com".to_string(), "b.org".to_string()]);
    let cfg = state.start_proxy().unwrap();
    assert_eq!(cfg.port, DEFAULT_PORT);
    assert_eq!(cfg.port, 26561);
    assert!(cfg.hosts.covers_host("www.example.com"));
    assert!(!cfg.hosts.covers_host("github.com"));
    assert!(cfg.clone().hosts.contains("b.org"));
}

#[test]
fn the_proxy_runs_once_at_a_time() {
    let mut state: AppState<u32> = AppState::new(AppConfig::default());
    assert!(!state.status().running);
    assert!(state.start_proxy().is_ok());
    state.proxy_started(7);
    assert!(state.status().running);
    assert_eq!(state.status().port, 26561);
    assert_eq!(state.status().hosts, state.config.hosts);
    assert_eq!(state.start_proxy().err(), Some(ALREADY_RUNNING.to_string()));
    assert_eq!(state.stop_proxy(), Some(7));
    assert_eq!(state.stop_proxy(), None);
    assert!(state.start_proxy().is_ok());
}

#[test]
fn a_running_proxy_is_started_anew_with_new_hosts() {
    let mut state: AppState<u32> = AppState::new(AppConfig::default());
    state.proxy_started(7);
    let (handle, cfg) = state.set_hosts(&["New.org:80".to_string()]).unwrap();
    assert_eq!(handle, 7);
    assert_eq!(cfg.port, DEFAULT_PORT);
    assert_eq!(cfg.hosts.len(), 1);
    assert!(cfg.hosts.contains("new.org"));
    assert!(!state.status().running);
    state.proxy_started(8);
    assert_eq!(state.status().hosts, vec!["new.org".to_string()]);
    assert_eq!(state.stop_proxy(), Some(8));
}

#[test]
fn settings_can_be_copied() {
    let mut config = AppConfig::default();
    let copy = config.clone();
    config.set_hosts(&[]);
    assert!(config.hosts.is_empty());
    assert_eq!(copy.hosts.len(), 22);
    config.add_default_hosts();
    assert_eq!(config.hosts, copy.hosts);
}

#[test]
fn errors_are_shown_as_text() {
    assert_eq!(cmd_err(Error::other("disk full")), "disk full");
    assert_eq!(cmd_err(42), "42");
}

#[test]
fn the_certificate_goes_to_the_program() {
    assert_eq!(certificate_dir(Some("a"), Some("b")), Ok("a"));
    assert_eq!(certificate_dir(None, Some("b")), Ok("b"));
    assert_eq!(certificate_dir::<&str>(None, None), Err(NO_DIRECTORY.to_string()));
}

#[test]
fn the_certificate_is_installed_by_commands() {
    assert_eq!(
        install_script("/opt/root-ca.pem"),
        "install -m 0644 '/opt/root-ca.pem' /usr/local/share/ca-certificates/steam-accelerator-root-ca.crt && update-ca-certificates 2>/dev/null"
    );
    assert_eq!(install_result(true), Ok(INSTALLED.to_string()));
    assert_eq!(install_result(false), Err(NOT_INSTALLED.to_string()));
}

#[test]
fn the_tray_needs_a_library_and_an_icon() {
    assert!(lists_tray_library("\tlibAyatana-AppIndicator3.so.1 (libc6)"));
    assert!(lists_tray_library("libappindicator3.so"));
    assert!(!lists_tray_library("libappindicator.so.1"));
    assert!(appindicator_available(Some(b"\xff\xfelibappindicator3")));
    assert!(!appindicator_available(Some(b"libc.so")));
    assert!(!appindicator_available(None));
    assert_eq!(tray_plan(true, true), TrayPlan::Show);
    assert_eq!(tray_plan(true, false), TrayPlan::NoIcon);
    assert_eq!(tray_plan(false, true), TrayPlan::NoLibrary);
    assert_eq!(menu_action("show"), MenuAction::ShowWindow);
    assert_eq!(menu_action("quit"), MenuAction::Quit);
    assert_eq!(menu_action("Quit"), MenuAction::Ignore);
}

#[test]
fn lost_connections_are_benign() {
    let lost = [
        ErrorKind::ConnectionReset,
        ErrorKind::ConnectionAborted,
        ErrorKind::BrokenPipe,
        ErrorKind::NotConnected,
        ErrorKind::UnexpectedEof,
        ErrorKind::TimedOut,
        ErrorKind::WriteZero,
    ];
    for kind in lost {
        assert!(is_benign(Some(&Error::from(kind))));
    }
    assert!(!is_benign(Some(&Error::from(ErrorKind::ConnectionRefused))));
    assert!(!is_benign(Some(&Error::other("headers too large"))));
    assert!(!is_benign(None));
    assert!(!is_benign(Some(&Error::from(ErrorKind::AddrInUse))));
    assert!(is_interruption(FailureKind::TimedOut));
    assert!(!is_interruption(FailureKind::Interrupted));
    assert!(!is_interruption(FailureKind::Other));
}

#[test]
fn the_last_lines_are_kept() {
    let mut log = LogBuffer::new();
    assert!(log.get_logs().is_empty());
    for n in 0..600 {
        log.push(format_line("INFO", &n.to_string()));
    }
    let lines = log.get_logs();
    assert_eq!(lines.len(), LOG_LIMIT);
    assert_eq!(lines[0], "[INFO] 100");
    assert_eq!(lines[499], "[INFO] 599");
}

#[test]
fn connections_are_shared_until_they_fail() {
    let mut pool: UpstreamPool<u32> = UpstreamPool::new();
    assert_eq!(pool.sender("a"), None);
    pool.keep("a", 1);
    pool.keep("b", 2);
    assert_eq!(pool.sender("a"), Some(&1));
    pool.dispose("a");
    assert_eq!(pool.sender("a"), None);
    assert_eq!(pool.sender("b"), Some(&2));
    pool.keep("b", 3);
    assert_eq!(pool.sender("b"), Some(&3));
}

#[test]
fn a_failed_request_is_sent_once_more() {
    let (state, action) = SendState::start().step(SendEvent::Connected);
    assert_eq!(action, SendAction::Send);
    let (state, action) = state.step(SendEvent::Failed);
    assert_eq!(action, SendAction::Reconnect);
    let (state, action) = state.step(SendEvent::Connected);
    assert_eq!(action, SendAction::Send);
    assert_eq!(state.step(SendEvent::Answered), (SendState::Done, SendAction::Respond));
    assert_eq!(state.step(SendEvent::Failed), (SendState::Done, SendAction::GiveUp));
}

#[test]
fn a_request_is_answered_or_given_up() {
    let (state, _) = SendState::start().step(SendEvent::Connected);
    assert_eq!(state.step(SendEvent::Answered), (SendState::Done, SendAction::Respond));
    let refused = SendState::start().step(SendEvent::NotConnected);
    assert_eq!(refused, (SendState::Done, SendAction::GiveUp));
}
