use gfwsni::config::{
    address, all, auto_run, autostart, cert_expire_secs, config_path, dial_timeout_secs, env_word, get_bool, hosts_url, load, set_bool,
    silent_launch, AppConfig, LoadStep, CONFIG_FILE, DEFAULT_CONFIG, DEFAULT_HOSTS_URL,
};
use gfwsni::table::Table;

fn env(pairs: &[(&str, &str)]) -> Table {
    let mut t = Table::new();
    for (k, v) in pairs {
        t.insert(k.to_string(), v.to_string());
    }
    t
}

#[test]
fn defaults_without_settings() {
    let e = env(&[]);
    assert_eq!(hosts_url(&e), "https://gh-proxy.com/https://github.com/svier0/gfwsni/releases/download/0/hosts");
    assert_eq!(address(&e), "localhost");
    assert_eq!(dial_timeout_secs(&e), 5);
    assert_eq!(cert_expire_secs(&e), 2000 * 3600);
    assert!(!auto_run(&e));
    assert!(!silent_launch(&e));
    assert!(!autostart(&e));
    assert_eq!(hosts_url(&e), DEFAULT_HOSTS_URL);
}

#[test]
fn default_file_says_what_the_defaults_are() {
    let mut e = env(&[]);
    let mut n = 0;
    for item in dotenvy::from_read_iter(DEFAULT_CONFIG.as_bytes()) {
        let (k, v) = item.unwrap();
        e.insert(k, v);
        n += 1;
    }
    assert_eq!(n, 7);
    let none = env(&[]);
    assert_eq!(hosts_url(&e), hosts_url(&none));
    assert_eq!(address(&e), address(&none));
    assert_eq!(dial_timeout_secs(&e), dial_timeout_secs(&none));
    assert_eq!(cert_expire_secs(&e), cert_expire_secs(&none));
    assert_eq!(all(&e), all(&none));
    assert!(DEFAULT_CONFIG.is_ascii());
}

#[test]
fn settings_are_read() {
    let e = env(&[
        ("HOSTS_URL", "http://x/hosts"),
        ("ADDRESS", "127.0.0.1"),
        ("DIAL_TIMEOUT_SECS", " 12 "),
        ("CERT_EXPIRE_SECS", "18446744073709551615"),
        ("AUTOSTART", " YES "),
        ("AUTO_RUN", "On"),
        ("SILENT_LAUNCH", "1"),
    ]);
    assert_eq!(hosts_url(&e), "http://x/hosts");
    assert_eq!(address(&e), "127.0.0.1");
    assert_eq!(dial_timeout_secs(&e), 12);
    assert_eq!(cert_expire_secs(&e), u64::MAX);
    assert_eq!(all(&e), AppConfig { autostart: true, auto_run: true, silent_launch: true });
}

#[test]
fn settings_that_make_no_sense() {
    let e = env(&[("DIAL_TIMEOUT_SECS", "soon"), ("CERT_EXPIRE_SECS", "-1"), ("AUTO_RUN", "maybe")]);
    assert_eq!(dial_timeout_secs(&e), 5);
    assert_eq!(cert_expire_secs(&e), 7200000);
    assert!(!auto_run(&e));
}

#[test]
fn words_for_a_switch() {
    for v in ["1", "true", "TRUE", "yes", "on"] {
        assert!(autostart(&env(&[("AUTOSTART", v)])));
    }
    for v in ["0", "false", "no", "off", "", "2", "t"] {
        assert!(!autostart(&env(&[("AUTOSTART", v)])));
    }
}

#[test]
fn file_is_written_or_read() {
    assert_eq!(load(false), LoadStep::WriteDefault);
    assert_eq!(load(true), LoadStep::Read);
    assert_eq!(config_path(), CONFIG_FILE);
    assert_eq!(config_path(), "data/app.conf");
}

#[test]
fn switch_is_set_in_its_line() {
    let content = "# AUTO_RUN=x\n\n  AUTO_RUN = maybe # note\nADDRESS=localhost\nAUTO_RUN=again\n";
    assert_eq!(
        set_bool(content, "AUTO_RUN", true),
        "# AUTO_RUN=x\n\nAUTO_RUN=true\nADDRESS=localhost\nAUTO_RUN=again\n"
    );
}

#[test]
fn switch_is_added() {
    assert_eq!(set_bool("ADDRESS=localhost", "AUTO_RUN", false), "ADDRESS=localhost\nAUTO_RUN=false\n");
    assert_eq!(set_bool("", "AUTO_RUN", true), "AUTO_RUN=true\n");
    assert_eq!(set_bool("AUTO_RUN\n", "AUTO_RUN", true), "AUTO_RUN\nAUTO_RUN=true\n");
}

#[test]
fn all_but_the_line_stays() {
    assert_eq!(set_bool("A=1\r\nAUTO_RUN=no\r\nB=2", "AUTO_RUN", true), "A=1\r\nAUTO_RUN=true\r\nB=2");
    assert_eq!(set_bool("A=1\r\n\tAUTO_RUN=no", "AUTO_RUN", true), "A=1\r\nAUTO_RUN=true");
    assert_eq!(set_bool("A=1\r\r\n\r\n", "AUTO_RUN", true), "A=1\r\r\n\r\nAUTO_RUN=true\n");
    assert_eq!(set_bool("AUTO_RUN=x\r\r\n", "AUTO_RUN", true), "AUTO_RUN=true\r\n");
}

#[test]
fn switch_is_read_as_it_was_set() {
    for value in [false, true] {
        let content = set_bool("", "SILENT_LAUNCH", value);
        let word = content.trim_end().strip_prefix("SILENT_LAUNCH=").unwrap();
        assert_eq!(silent_launch(&env(&[("SILENT_LAUNCH", word)])), value);
    }
}

#[test]
fn environment_follows_the_file() {
    for value in [false, true] {
        assert_eq!(env_word(value, false), None);
        let mut e = env(&[("AUTO_RUN", if value { "off" } else { "on" }), ("AUTOSTART", "on")]);
        e.insert("AUTO_RUN".to_string(), env_word(value, true).unwrap().to_string());
        for default in [false, true] {
            assert_eq!(get_bool(&e, "AUTO_RUN", default), value);
            assert!(get_bool(&e, "AUTOSTART", default));
        }
    }
}

#[test]
fn last_setting_counts() {
    let once = set_bool(DEFAULT_CONFIG, "SILENT_LAUNCH", true);
    assert!(once.contains("\nSILENT_LAUNCH=true\n"));
    let twice = set_bool(&once, "SILENT_LAUNCH", false);
    assert_eq!(twice, set_bool(DEFAULT_CONFIG, "SILENT_LAUNCH", false));
    assert_eq!(twice, DEFAULT_CONFIG);
}

#[test]
fn setting_is_read_back() {
    let new = set_bool(DEFAULT_CONFIG, "AUTOSTART", true);
    let mut e = env(&[]);
    for item in dotenvy::from_read_iter(new.as_bytes()) {
        let (k, v) = item.unwrap();
        e.insert(k, v);
    }
    assert_eq!(all(&e), AppConfig { autostart: true, auto_run: false, silent_launch: false });
}
