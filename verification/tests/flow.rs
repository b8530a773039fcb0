use gfwsni::flow::{
    async_run, authority_found, check_admin, ensure_init, install_args, is_autostart_enabled, reset_cert,
    reset_error, set_autostart, set_config, shortcut_made, startup_shortcut_path, uninstall_args, InitRecord,
    InitStep, ResetStep, Rights, RunStep, ShortcutStep,
};

fn run(answers: &[bool]) -> Vec<RunStep> {
    let mut steps = vec![RunStep::Init];
    for a in answers {
        steps.push(async_run(steps[steps.len() - 1], *a));
    }
    steps
}

#[test]
fn run_with_rules_and_an_address() {
    assert_eq!(
        run(&[true, true, true, true, true, true, false, true, true]),
        vec![
            RunStep::Init,
            RunStep::FindRules,
            RunStep::Load,
            RunStep::Apply,
            RunStep::FindAddress,
            RunStep::Listen,
            RunStep::Wait,
            RunStep::Wait,
            RunStep::Restore,
            RunStep::Done,
        ]
    );
}

#[test]
fn run_without_rules_or_an_address() {
    assert_eq!(
        run(&[true, false, true, true, true, false, true, true]),
        vec![
            RunStep::Init,
            RunStep::FindRules,
            RunStep::Fetch,
            RunStep::Load,
            RunStep::Apply,
            RunStep::FindAddress,
            RunStep::Lookup,
            RunStep::Listen,
            RunStep::Wait,
        ]
    );
}

#[test]
fn run_that_fails() {
    for step in [
        RunStep::Init,
        RunStep::Fetch,
        RunStep::Load,
        RunStep::Apply,
        RunStep::Lookup,
        RunStep::Restore,
        RunStep::Failed,
    ] {
        assert_eq!(async_run(step, false), RunStep::Failed);
    }
}

#[test]
fn getting_ready() {
    let mut step = InitStep::Crypto;
    let mut seen = Vec::new();
    while step != InitStep::Done {
        seen.push(step);
        step = ensure_init(step, step != InitStep::FindData && step != InitStep::FindAuthority);
    }
    assert_eq!(
        seen,
        vec![
            InitStep::Crypto,
            InitStep::Limits,
            InitStep::FindData,
            InitStep::MakeData,
            InitStep::FindAuthority,
            InitStep::MakeAuthority,
            InitStep::Install,
            InitStep::Certs,
            InitStep::Rules,
            InitStep::Proxy,
        ]
    );
    assert_eq!(ensure_init(InitStep::FindData, true), InitStep::FindAuthority);
    assert_eq!(ensure_init(InitStep::FindAuthority, true), InitStep::Install);
    assert_eq!(ensure_init(InitStep::Install, false), InitStep::Certs);
    assert_eq!(ensure_init(InitStep::Certs, false), InitStep::Failed);
}

#[test]
fn both_files_of_the_authority_are_needed() {
    assert!(authority_found(true, true));
    assert!(!authority_found(true, false));
    assert!(!authority_found(false, true));
}

#[test]
fn getting_ready_is_tried_once() {
    let mut r = InitRecord::new();
    assert!(!r.tried());
    r.record(Some("first".to_string()));
    r.record(None);
    assert!(r.tried());
    assert_eq!(r.outcome(), Err("first".to_string()));
    let mut r = InitRecord::new();
    r.record(None);
    assert_eq!(r.outcome(), Ok(()));
}

#[test]
fn changing_the_authority() {
    let mut step = ResetStep::MakeData;
    let mut seen = Vec::new();
    while step != ResetStep::Done {
        seen.push(step);
        let yes = step != ResetStep::RemoveFiles && step != ResetStep::Uninstall && step != ResetStep::Install;
        step = reset_cert(step, yes);
    }
    assert_eq!(
        seen,
        vec![
            ResetStep::MakeData,
            ResetStep::RemoveFiles,
            ResetStep::Uninstall,
            ResetStep::MakeAuthority,
            ResetStep::Install,
            ResetStep::Reload,
        ]
    );
    for step in [ResetStep::MakeData, ResetStep::MakeAuthority, ResetStep::Reload] {
        assert_eq!(reset_cert(step, false), ResetStep::Failed);
    }
}

#[test]
fn errors_in_changing_the_authority() {
    assert_eq!(reset_error(ResetStep::MakeData, "x"), "创建目录失败: x");
    assert_eq!(reset_error(ResetStep::MakeAuthority, "x"), "生成 CA 证书失败: x");
    assert_eq!(reset_error(ResetStep::Reload, "x"), "重载 CA 证书失败: x");
    assert_eq!(reset_error(ResetStep::Install, "x"), "x");
}

#[test]
fn settings_that_the_window_may_change() {
    assert_eq!(set_config("AUTOSTART"), Ok(true));
    assert_eq!(set_config("AUTO_RUN"), Ok(false));
    assert_eq!(set_config("SILENT_LAUNCH"), Ok(false));
    assert_eq!(set_config("HOSTS_URL"), Err("未知配置项: HOSTS_URL".to_string()));
}

#[test]
fn shortcut_path() {
    assert_eq!(
        startup_shortcut_path(Some("D:\\app".to_string())),
        vec!["D:\\app", "Microsoft\\Windows\\Start Menu\\Programs\\Startup", "gfwsni.lnk"]
    );
    assert_eq!(startup_shortcut_path(None)[0], "C:\\Users\\Default\\AppData\\Roaming");
}

#[test]
fn shortcut_is_made_or_removed() {
    match set_autostart(true, true, true, "P", "E") {
        ShortcutStep::Run(script) => assert_eq!(
            script,
            "$s=(New-Object -ComObject WScript.Shell).CreateShortcut('P');$s.TargetPath='E';$s.Save()"
        ),
        _ => panic!("no script"),
    }
    assert!(matches!(set_autostart(true, false, true, "P", "E"), ShortcutStep::Remove));
    assert!(matches!(set_autostart(true, false, false, "P", "E"), ShortcutStep::Nothing));
    assert!(matches!(set_autostart(false, true, true, "P", "E"), ShortcutStep::Unsupported));
    assert!(is_autostart_enabled(true, true));
    assert!(!is_autostart_enabled(true, false));
    assert!(!is_autostart_enabled(false, true));
}

#[test]
fn shortcut_that_could_not_be_made() {
    assert_eq!(shortcut_made(true, b"x"), Ok(()));
    assert_eq!(shortcut_made(false, b"bad\xFF"), Err("创建快捷方式失败: bad\u{FFFD}".to_string()));
}

#[test]
fn rights_of_the_program() {
    assert_eq!(check_admin(false, true, true), Rights::Unknown);
    assert_eq!(check_admin(true, false, true), Rights::Denied);
    assert_eq!(check_admin(true, true, false), Rights::Denied);
    assert_eq!(check_admin(true, true, true), Rights::Granted);
}

#[test]
fn arguments_for_the_store_of_certificates() {
    assert_eq!(install_args("C:\\ca.crt"), vec!["-addstore", "-f", "Root", "C:\\ca.crt"]);
    assert_eq!(uninstall_args(), vec!["-delstore", "Root", "gfwsni CA (auto-generated)"]);
}

#[test]
fn shortcut_is_there_where_it_is_wanted() {
    for has in [false, true] {
        for enabled in [false, true] {
            for exists in [false, true] {
                let after = match set_autostart(has, enabled, exists, "P", "E") {
                    ShortcutStep::Run(_) => true,
                    ShortcutStep::Remove => false,
                    ShortcutStep::Nothing | ShortcutStep::Unsupported => exists,
                };
                assert_eq!(is_autostart_enabled(has, after), has && enabled);
            }
        }
    }
}
