use daily_poweroff::commands::{
    apply_dates, apply_set, cancel_dates, config_language_or_default, install_systemd_args,
    join_dates, parse_cancel_args, parse_command, parse_global_args, config_option, request_in_range, set_enabled, set_language,
    set_language_arg, set_options_in_range, set_time_arg, status_lines, status_next_line,
    warnings_minutes, CancelRequest, Command,
};
use daily_poweroff::config::{Config, Language, TimeOfDay};
use daily_poweroff::schedule::LocalNow;

fn strings(v: &[&str]) -> Vec<String> {
    v.iter().map(|s| s.to_string()).collect()
}

fn now_at(epoch: i64, date: &str) -> LocalNow {
    LocalNow { epoch, date: date.to_string(), time: "08:15:00".to_string() }
}

#[test]
fn global_config_option_is_taken_out() {
    let (p, rest) =
        parse_global_args(strings(&["status"]), "/etc/daily-poweroff.conf".to_string()).unwrap();
    assert_eq!(p, "/etc/daily-poweroff.conf");
    assert_eq!(rest, vec!["status"]);
    let (p, rest) = parse_global_args(
        strings(&["--config", "/tmp/a.conf", "set", "-c", "/tmp/b.conf", "17:30"]),
        "/etc/daily-poweroff.conf".to_string(),
    )
    .unwrap();
    assert_eq!(p, "/tmp/b.conf");
    assert_eq!(rest, vec!["set", "17:30"]);
    assert_eq!(
        parse_global_args(strings(&["status", "-c"]), "x".to_string()).unwrap_err(),
        "--config requires a file path"
    );
}

#[test]
fn config_option_reports_whether_a_path_was_given() {
    let (p, rest) = config_option(strings(&["status"])).unwrap();
    assert_eq!(p, None);
    assert_eq!(rest, vec!["status"]);
    let (p, rest) = config_option(strings(&["-c", "/tmp/a.conf", "cancel", "--days", "2"])).unwrap();
    assert_eq!(p, Some("/tmp/a.conf".to_string()));
    assert_eq!(rest, vec!["cancel", "--days", "2"]);
    assert_eq!(
        config_option(strings(&["--config"])).unwrap_err(),
        "--config requires a file path"
    );
}

#[test]
fn command_words() {
    assert_eq!(parse_command(&strings(&[])), Ok(Command::Usage));
    assert_eq!(parse_command(&strings(&["set", "17:30"])), Ok(Command::SetTime));
    assert_eq!(parse_command(&strings(&["cancel"])), Ok(Command::Cancel));
    assert_eq!(parse_command(&strings(&["resume"])), Ok(Command::Resume));
    assert_eq!(parse_command(&strings(&["uncancel"])), Ok(Command::Resume));
    assert_eq!(parse_command(&strings(&["status"])), Ok(Command::Status));
    assert_eq!(parse_command(&strings(&["enable"])), Ok(Command::Enable));
    assert_eq!(parse_command(&strings(&["disable"])), Ok(Command::Disable));
    assert_eq!(parse_command(&strings(&["daemon"])), Ok(Command::Daemon));
    assert_eq!(parse_command(&strings(&["run"])), Ok(Command::Daemon));
    assert_eq!(parse_command(&strings(&["test-broadcast"])), Ok(Command::TestBroadcast));
    assert_eq!(parse_command(&strings(&["set-language", "en"])), Ok(Command::SetLanguage));
    assert_eq!(parse_command(&strings(&["install-systemd"])), Ok(Command::InstallSystemd));
    assert_eq!(parse_command(&strings(&["print-systemd"])), Ok(Command::PrintSystemd));
    assert_eq!(parse_command(&strings(&["-h"])), Ok(Command::Usage));
    assert_eq!(parse_command(&strings(&["--help"])), Ok(Command::Usage));
    assert_eq!(parse_command(&strings(&["help"])), Ok(Command::Usage));
    assert_eq!(
        parse_command(&strings(&["reboot"])),
        Err("unknown command: reboot".to_string())
    );
}

#[test]
fn usage_language_follows_the_file() {
    assert_eq!(config_language_or_default(None), Language::En);
    assert_eq!(config_language_or_default(Some("language=zh-CN\n")), Language::ZhCn);
    assert_eq!(config_language_or_default(Some("garbage")), Language::En);
}

#[test]
fn set_takes_a_time_and_options() {
    assert_eq!(set_time_arg(&strings(&["17:30"])), Ok(TimeOfDay { hour: 17, minute: 30 }));
    assert_eq!(
        set_time_arg(&strings(&[])),
        Err("set requires a time like 17:30".to_string())
    );
    let args = strings(&["17:30", "--warning-minutes", "10,5", "--dry-run", "true"]);
    assert!(set_options_in_range(&args));
    let mut c = Config::default();
    c.enabled = false;
    assert_eq!(apply_set(&mut c, TimeOfDay { hour: 17, minute: 30 }, &args), Ok(()));
    assert!(c.enabled);
    assert_eq!(c.shutdown_time, Some(TimeOfDay { hour: 17, minute: 30 }));
    assert_eq!(c.warning_seconds, vec![600, 300]);
    assert!(c.dry_run);
    let mut c = Config::default();
    assert_eq!(
        apply_set(&mut c, TimeOfDay { hour: 1, minute: 0 }, &strings(&["01:00", "--dry-run"])),
        Err("--dry-run requires true or false".to_string())
    );
    assert_eq!(
        apply_set(&mut c, TimeOfDay { hour: 1, minute: 0 }, &strings(&["01:00", "--warning-minutes"])),
        Err("--warning-minutes requires a comma-separated list".to_string())
    );
    assert_eq!(
        apply_set(&mut c, TimeOfDay { hour: 1, minute: 0 }, &strings(&["01:00", "--force"])),
        Err("unknown set option: --force".to_string())
    );
    assert!(!set_options_in_range(&strings(&["01:00", "--warning-minutes", "153722867280912931"])));
}

#[test]
fn cancel_arguments() {
    let r = parse_cancel_args(&strings(&["--from", "2026-05-25", "--days", "3"])).unwrap();
    assert_eq!(r.from, Some("2026-05-25".to_string()));
    assert_eq!(r.days, Some(3));
    assert!(r.dates.is_empty());
    let r = parse_cancel_args(&strings(&["2026-05-25", "2026-05-26"])).unwrap();
    assert_eq!(r.dates, vec!["2026-05-25", "2026-05-26"]);
    assert_eq!(
        parse_cancel_args(&strings(&["--days", "0"])).err(),
        Some("--days must be at least 1".to_string())
    );
    assert_eq!(
        parse_cancel_args(&strings(&["--days", "x"])).err(),
        Some("--days must be a positive integer".to_string())
    );
    assert_eq!(
        parse_cancel_args(&strings(&["--days"])).err(),
        Some("--days requires a positive integer".to_string())
    );
    assert_eq!(
        parse_cancel_args(&strings(&["--from"])).err(),
        Some("--from requires YYYY-MM-DD".to_string())
    );
    assert_eq!(
        parse_cancel_args(&strings(&["tomorrow"])).err(),
        Some("invalid date: tomorrow; expected YYYY-MM-DD".to_string())
    );
}

#[test]
fn cancel_dates_ranges_and_defaults() {
    let mut c = Config::default();
    c.shutdown_time = Some(TimeOfDay { hour: 17, minute: 30 });
    let now = now_at(1000, "2026-05-30");
    let req = CancelRequest { from: Some("2026-05-25".to_string()), days: Some(3), dates: vec![] };
    assert!(request_in_range(&req));
    assert_eq!(
        cancel_dates(&req, &c, &now, &Ok(2000)),
        Ok(strings(&["2026-05-25", "2026-05-26", "2026-05-27"]))
    );
    let next = CancelRequest { from: None, days: None, dates: vec![] };
    assert_eq!(cancel_dates(&next, &c, &now, &Ok(2000)), Ok(strings(&["2026-05-30"])));
    assert_eq!(cancel_dates(&next, &c, &now, &Ok(500)), Ok(strings(&["2026-05-31"])));
    let three = CancelRequest { from: None, days: Some(3), dates: vec![] };
    assert_eq!(
        cancel_dates(&three, &c, &now, &Ok(500)),
        Ok(strings(&["2026-05-31", "2026-06-01", "2026-06-02"]))
    );
    let both = CancelRequest { from: None, days: Some(2), dates: strings(&["2026-05-25"]) };
    assert_eq!(
        cancel_dates(&both, &c, &now, &Ok(500)),
        Err("use explicit dates, or use --days/--from; do not combine them".to_string())
    );
    let explicit = CancelRequest { from: None, days: None, dates: strings(&["2026-05-26", "2026-05-25"]) };
    assert_eq!(
        cancel_dates(&explicit, &c, &now, &Err("unused".to_string())),
        Ok(strings(&["2026-05-26", "2026-05-25"]))
    );
    assert!(!request_in_range(&CancelRequest { from: None, days: Some(i64::MAX), dates: vec![] }));
}

#[test]
fn explicit_dates_with_huge_days_are_refused() {
    let c = Config::default();
    let now = now_at(1000, "2026-05-30");
    let req = CancelRequest {
        from: None,
        days: Some(200000000000000),
        dates: strings(&["2026-05-25"]),
    };
    assert!(request_in_range(&req));
    assert_eq!(
        cancel_dates(&req, &c, &now, &Ok(500)),
        Err("use explicit dates, or use --days/--from; do not combine them".to_string())
    );
}

#[test]
fn cancel_then_resume() {
    let mut c = Config::default();
    c.canceled_dates = strings(&["2026-05-20"]);
    apply_dates(&mut c, &strings(&["2026-05-26", "2026-05-25", "2026-05-26"]), true);
    assert_eq!(c.canceled_dates, strings(&["2026-05-20", "2026-05-25", "2026-05-26"]));
    apply_dates(&mut c, &strings(&["2026-05-25", "2026-06-01"]), false);
    assert_eq!(c.canceled_dates, strings(&["2026-05-20", "2026-05-26"]));
    apply_dates(&mut c, &strings(&["2026-05-26"]), false);
    assert_eq!(c.canceled_dates, strings(&["2026-05-20"]));
    assert_eq!(join_dates(&strings(&["a", "b", "c"])), "a, b, c");
    assert_eq!(join_dates(&strings(&[])), "");
}

#[test]
fn set_language_and_install_arguments() {
    assert_eq!(set_language_arg(&strings(&["zh-CN"])), Ok("zh-CN".to_string()));
    assert_eq!(
        set_language_arg(&strings(&[])),
        Err("set-language requires en or zh-CN".to_string())
    );
    assert_eq!(
        set_language_arg(&strings(&["en", "zh-CN"])),
        Err("set-language accepts exactly one value: en or zh-CN".to_string())
    );
    assert_eq!(install_systemd_args(&strings(&[])), Ok(()));
    assert_eq!(
        install_systemd_args(&strings(&["now"])),
        Err("install-systemd does not take arguments".to_string())
    );
}

#[test]
fn status_report() {
    let mut c = Config::default();
    c.shutdown_time = Some(TimeOfDay { hour: 17, minute: 30 });
    c.warning_seconds = vec![3600, 90, 30];
    let now = now_at(1000, "2026-05-25");
    assert_eq!(
        status_lines(&c, "/etc/daily-poweroff.conf", &now),
        "config: /etc/daily-poweroff.conf\nenabled: true\ntime: 17:30\nnow: 2026-05-25 08:15:00\ndry_run: false\nshutdown_command: systemctl poweroff\nlanguage: en\nwarning_minutes: 60,90s,30s\ncancelled_dates: none\n"
    );
    assert_eq!(
        status_next_line(&c, &Some("2026-05-25".to_string())),
        "next_shutdown: 2026-05-25 17:30\n"
    );
    assert_eq!(status_next_line(&c, &None), "next_shutdown: none\n");
    let mut z = Config::default();
    z.language = Language::ZhCn;
    z.canceled_dates = strings(&["2026-05-25", "2026-05-26"]);
    let text = status_lines(&z, "/tmp/x.conf", &now);
    assert!(text.starts_with("配置: /tmp/x.conf\n启用: true\n时间: 未设置\n"));
    assert!(text.ends_with("已取消日期: 2026-05-25, 2026-05-26\n"));
    assert_eq!(warnings_minutes(&vec![120, 61, 60]), "2,61s,1");
}

#[test]
fn resume_undoes_cancel_and_both_are_idempotent() {
    let mut c = Config::default();
    c.canceled_dates = strings(&["2026-05-20", "2026-05-30"]);
    let dates = strings(&["2026-05-25", "2026-05-21"]);
    apply_dates(&mut c, &dates, true);
    let once = c.canceled_dates.clone();
    apply_dates(&mut c, &dates, true);
    assert_eq!(c.canceled_dates, once);
    apply_dates(&mut c, &dates, false);
    assert_eq!(c.canceled_dates, strings(&["2026-05-20", "2026-05-30"]));
    apply_dates(&mut c, &dates, false);
    assert_eq!(c.canceled_dates, strings(&["2026-05-20", "2026-05-30"]));
}

#[test]
fn enable_and_disable_change_only_the_flag() {
    let mut c = Config::default();
    c.shutdown_time = Some(TimeOfDay { hour: 17, minute: 30 });
    set_enabled(&mut c, false);
    assert!(!c.enabled);
    assert_eq!(c.shutdown_time, Some(TimeOfDay { hour: 17, minute: 30 }));
    assert_eq!(c.warning_seconds, Config::default().warning_seconds);
    set_enabled(&mut c, true);
    assert!(c.enabled);
}

#[test]
fn set_language_changes_only_the_language() {
    let mut c = Config::default();
    assert_eq!(set_language(&mut c, "zh-CN"), Ok(()));
    assert_eq!(c.language, Language::ZhCn);
    assert_eq!(set_language(&mut c, "en"), Ok(()));
    assert_eq!(c.language, Language::En);
    assert_eq!(
        set_language(&mut c, "fr"),
        Err("invalid language: fr; expected en or zh-CN".to_string())
    );
    assert_eq!(c.language, Language::En);
}
