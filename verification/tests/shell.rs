use gfwsni::config::AppConfig;
use gfwsni::shell::{Act, Event, Shell};

fn config(autostart: bool, auto_run: bool, silent_launch: bool) -> AppConfig {
    AppConfig { autostart, auto_run, silent_launch }
}

#[test]
fn launch_with_a_window() {
    let mut s = Shell::new();
    let acts = s.on(Event::Launched(config(false, false, false)));
    assert_eq!(acts, vec![Act::CleanHosts, Act::CheckLight(false), Act::BuildWindow]);
    assert!(!s.light_mode);
}

#[test]
fn launch_in_silence() {
    let mut s = Shell::new();
    let acts = s.on(Event::Launched(config(true, true, true)));
    assert_eq!(acts, vec![Act::CleanHosts, Act::MakeShortcut, Act::StartLater, Act::CheckLight(true)]);
    assert!(s.light_mode);
}

#[test]
fn proxy_is_started_once() {
    let mut s = Shell::new();
    assert_eq!(s.refresh_toggle_text(), "启动");
    assert_eq!(s.on(Event::Start), vec![Act::ClearLog, Act::ShowRunning(true), Act::RunProxy]);
    assert_eq!(s.refresh_toggle_text(), "停止");
    assert!(s.on(Event::Start).is_empty());
    assert_eq!(s.set_proxy_status(true), (Vec::new(), true));
}

#[test]
fn proxy_runs_until_it_has_ended() {
    let mut s = Shell::new();
    assert!(s.on(Event::Stop).is_empty());
    s.on(Event::Start);
    assert_eq!(s.set_proxy_status(false), (vec![Act::SendStop], true));
    assert_eq!(s.on(Event::Ended(false)), vec![Act::ShowRunning(false)]);
    assert_eq!(s.set_proxy_status(false), (Vec::new(), false));
    assert!(!s.quit);
}

#[test]
fn proxy_that_fails_ends_the_program() {
    let mut s = Shell::new();
    s.on(Event::Start);
    assert_eq!(s.on(Event::Ended(true)), vec![Act::RestoreHosts, Act::ShowRunning(false), Act::Exit(1)]);
    assert!(s.quit);
    assert!(s.on(Event::ExitRequested).is_empty());
}

#[test]
fn quit_restores_the_hosts_file() {
    let mut s = Shell::new();
    assert_eq!(s.on(Event::ExitRequested), vec![Act::StayUp]);
    s.on(Event::Start);
    assert_eq!(s.on_menu("quit", true), vec![Act::SendStop, Act::RestoreHosts, Act::Exit(0)]);
    assert!(s.on(Event::ExitRequested).is_empty());
    let mut s = Shell::new();
    assert_eq!(s.on_menu("quit", true), vec![Act::Exit(0)]);
}

#[test]
fn menu_starts_and_stops() {
    let mut s = Shell::new();
    assert_eq!(s.on_menu("toggle", true), vec![Act::ClearLog, Act::ShowRunning(true), Act::RunProxy]);
    assert_eq!(s.on_menu("toggle", true), vec![Act::SendStop]);
    assert!(s.on_menu("other", true).is_empty());
}

#[test]
fn window_is_hidden_in_place_of_being_closed() {
    let mut s = Shell::new();
    assert_eq!(s.on(Event::CloseRequested), vec![Act::StayUp, Act::HideWindow]);
    assert_eq!(s.on_menu("show", true), vec![Act::ShowWindow]);
    assert_eq!(s.on_menu("show", false), vec![Act::BuildWindow]);
}

#[test]
fn light_mode_lets_the_window_go_once() {
    let mut s = Shell::new();
    assert_eq!(s.on_menu("light", true), vec![Act::CheckLight(true), Act::CloseWindow]);
    assert!(s.on(Event::CloseRequested).is_empty());
    assert_eq!(s.on(Event::CloseRequested), vec![Act::StayUp, Act::HideWindow]);
    assert_eq!(s.on_menu("light", false), vec![Act::CheckLight(false), Act::BuildWindow]);
    assert!(!s.light_mode);
}

#[test]
fn showing_the_window_ends_light_mode() {
    let mut s = Shell::new();
    assert_eq!(s.on_menu("light", false), vec![Act::CheckLight(true)]);
    assert!(s.light_mode && !s.light_close);
    assert_eq!(s.on(Event::Show(false)), vec![Act::CheckLight(false), Act::BuildWindow]);
    assert!(!s.light_mode);
}
