use daily_poweroff::config::{Config, TimeOfDay};
use daily_poweroff::daemon::{shutdown_plan, DaemonAction, DaemonState, ShutdownPlan, daemon_step};
use daily_poweroff::schedule::{
    default_action_start_date, local_now, next_scheduled_date, next_warning_threshold,
    sleep_interval, LocalNow, LocalTime,
};

fn now_at(epoch: i64, date: &str) -> LocalNow {
    LocalNow { epoch, date: date.to_string(), time: "12:00:00".to_string() }
}

fn config_at(hour: u32, minute: u32) -> Config {
    let mut c = Config::default();
    c.shutdown_time = Some(TimeOfDay { hour, minute });
    c
}

#[test]
fn local_now_formats_date_and_time() {
    let n = local_now(
        1_779_700_000,
        LocalTime { year: 2026, month: 5, day: 7, hour: 9, minute: 3, second: 1 },
    );
    assert_eq!(n.epoch, 1_779_700_000);
    assert_eq!(n.date, "2026-05-07");
    assert_eq!(n.time, "09:03:01");
}

#[test]
fn sleep_intervals() {
    assert_eq!(sleep_interval(10), 5);
    assert_eq!(sleep_interval(60), 5);
    assert_eq!(sleep_interval(61), 15);
    assert_eq!(sleep_interval(300), 15);
    assert_eq!(sleep_interval(301), 30);
}

#[test]
fn start_date_is_today_before_the_poweroff_and_tomorrow_after() {
    let c = config_at(17, 30);
    let before = now_at(1000, "2026-05-25");
    assert_eq!(
        default_action_start_date(&c, &before, &Ok(2000)),
        Ok("2026-05-25".to_string())
    );
    assert_eq!(
        default_action_start_date(&c, &before, &Ok(1000)),
        Ok("2026-05-25".to_string())
    );
    let after = now_at(3000, "2026-05-31");
    assert_eq!(
        default_action_start_date(&c, &after, &Ok(2000)),
        Ok("2026-06-01".to_string())
    );
    assert_eq!(
        default_action_start_date(&c, &after, &Err("mktime".to_string())),
        Err("mktime".to_string())
    );
    let no_time = Config::default();
    assert_eq!(
        default_action_start_date(&no_time, &after, &Err("unused".to_string())),
        Ok("2026-05-31".to_string())
    );
}

#[test]
fn next_scheduled_date_skips_canceled_and_past_today() {
    let mut c = config_at(17, 30);
    let now = now_at(1000, "2026-05-25");
    assert_eq!(next_scheduled_date(&c, &now, &Ok(2000)), Ok(Some("2026-05-25".to_string())));
    // Up to a minute late still counts as today.
    assert_eq!(next_scheduled_date(&c, &now, &Ok(940)), Ok(Some("2026-05-25".to_string())));
    assert_eq!(next_scheduled_date(&c, &now, &Ok(939)), Ok(Some("2026-05-26".to_string())));
    c.canceled_dates = vec!["2026-05-25".to_string(), "2026-05-26".to_string()];
    assert_eq!(next_scheduled_date(&c, &now, &Ok(2000)), Ok(Some("2026-05-27".to_string())));
    c.enabled = false;
    assert_eq!(next_scheduled_date(&c, &now, &Ok(2000)), Ok(None));
    assert_eq!(
        next_scheduled_date(&config_at(1, 0), &now, &Err("bad".to_string())),
        Err("bad".to_string())
    );
    assert_eq!(next_scheduled_date(&Config::default(), &now, &Ok(2000)), Ok(None));
}

#[test]
fn warning_threshold_is_smallest_due_and_unsent() {
    let w = vec![3600, 600, 300, 60];
    let mut sent: Vec<(String, i64)> = vec![];
    assert_eq!(next_warning_threshold(&w, 500, &sent, "2026-05-25"), Some(600));
    assert_eq!(next_warning_threshold(&w, 4000, &sent, "2026-05-25"), None);
    sent.push(("2026-05-25".to_string(), 600));
    assert_eq!(next_warning_threshold(&w, 500, &sent, "2026-05-25"), Some(3600));
    assert_eq!(next_warning_threshold(&w, 500, &sent, "2026-05-26"), Some(600));
    assert_eq!(next_warning_threshold(&w, 60, &sent, "2026-05-25"), Some(60));
}

#[test]
fn daemon_warns_once_then_powers_off_once() {
    let mut c = config_at(17, 30);
    c.warning_seconds = vec![600, 60];
    let config = Ok(c);
    let mut state = DaemonState::new();
    let target = Ok(10_000);
    match daemon_step(&mut state, &config, &Ok(now_at(9_500, "2026-05-25")), &target) {
        DaemonAction::Warn { message, seconds } => {
            assert_eq!(
                message,
                "Poweroff in 9 minutes\nScheduled: 2026-05-25 17:30\nCancel: sudo daily-poweroff cancel"
            );
            assert_eq!(seconds, 30);
        }
        _ => panic!("expected a warning"),
    }
    match daemon_step(&mut state, &config, &Ok(now_at(9_510, "2026-05-25")), &target) {
        DaemonAction::Sleep(s) => assert_eq!(s, 30),
        _ => panic!("expected a sleep"),
    }
    match daemon_step(&mut state, &config, &Ok(now_at(9_950, "2026-05-25")), &target) {
        DaemonAction::Warn { seconds, .. } => assert_eq!(seconds, 5),
        _ => panic!("expected the last warning"),
    }
    match daemon_step(&mut state, &config, &Ok(now_at(10_000, "2026-05-25")), &target) {
        DaemonAction::PowerOff { message } => {
            assert_eq!(message, "Powering off now\nScheduled: 2026-05-25 17:30")
        }
        _ => panic!("expected the poweroff"),
    }
    match daemon_step(&mut state, &config, &Ok(now_at(10_030, "2026-05-25")), &target) {
        DaemonAction::Sleep(s) => assert_eq!(s, 60),
        _ => panic!("expected no second poweroff"),
    }
    match daemon_step(&mut state, &config, &Ok(now_at(10_061, "2026-05-25")), &target) {
        DaemonAction::Sleep(s) => assert_eq!(s, 60),
        _ => panic!("expected a sleep after the window"),
    }
}

#[test]
fn daemon_powers_off_once_per_date_even_when_the_config_changes() {
    let mut state = DaemonState::new();
    let first = Ok(config_at(17, 30));
    match daemon_step(&mut state, &first, &Ok(now_at(10_000, "2026-05-25")), &Ok(10_000)) {
        DaemonAction::PowerOff { .. } => {}
        _ => panic!("expected the poweroff"),
    }
    let later = Ok(config_at(17, 45));
    match daemon_step(&mut state, &later, &Ok(now_at(10_900, "2026-05-25")), &Ok(10_900)) {
        DaemonAction::Sleep(s) => assert_eq!(s, 60),
        _ => panic!("expected no second poweroff on the same date"),
    }
    match daemon_step(&mut state, &later, &Ok(now_at(97_300, "2026-05-26")), &Ok(97_300)) {
        DaemonAction::PowerOff { message } => {
            assert_eq!(message, "Powering off now\nScheduled: 2026-05-26 17:45")
        }
        _ => panic!("expected the poweroff of the next date"),
    }
}

#[test]
fn daemon_warns_about_a_threshold_once_across_rounds() {
    let mut c = config_at(17, 30);
    c.warning_seconds = vec![600];
    let config = Ok(c);
    let mut state = DaemonState::new();
    match daemon_step(&mut state, &config, &Ok(now_at(9_500, "2026-05-25")), &Ok(10_000)) {
        DaemonAction::Warn { .. } => {}
        _ => panic!("expected a warning"),
    }
    match daemon_step(&mut state, &config, &Ok(now_at(9_650, "2026-05-25")), &Ok(10_000)) {
        DaemonAction::Sleep(s) => assert_eq!(s, 30),
        _ => panic!("expected no second warning for the same threshold"),
    }
}

#[test]
fn daemon_waits_on_errors_disabled_and_canceled() {
    let mut state = DaemonState::new();
    match daemon_step(&mut state, &Err("boom".to_string()), &Ok(now_at(0, "2026-05-25")), &Ok(0)) {
        DaemonAction::Report { error, seconds } => {
            assert_eq!(error, "failed to load config: boom");
            assert_eq!(seconds, 60);
        }
        _ => panic!(),
    }
    let c = config_at(17, 30);
    match daemon_step(&mut state, &Ok(c), &Err("clock".to_string()), &Ok(0)) {
        DaemonAction::Report { error, .. } => assert_eq!(error, "failed to read local time: clock"),
        _ => panic!(),
    }
    match daemon_step(&mut state, &Ok(config_at(17, 30)), &Ok(now_at(5, "2026-05-25")), &Err("tz".to_string())) {
        DaemonAction::Report { error, .. } => assert_eq!(error, "failed to compute shutdown time: tz"),
        _ => panic!(),
    }
    let mut off = config_at(17, 30);
    off.enabled = false;
    match daemon_step(&mut state, &Ok(off), &Ok(now_at(10_000, "2026-05-25")), &Ok(10_000)) {
        DaemonAction::Sleep(s) => assert_eq!(s, 60),
        _ => panic!(),
    }
    let mut canceled = config_at(17, 30);
    canceled.canceled_dates = vec!["2026-05-25".to_string()];
    match daemon_step(&mut state, &Ok(canceled), &Ok(now_at(10_000, "2026-05-25")), &Ok(10_000)) {
        DaemonAction::Sleep(s) => assert_eq!(s, 60),
        _ => panic!(),
    }
    assert!(state.shutdown_sent_for.is_empty());
}

#[test]
fn shutdown_plans() {
    let mut c = Config::default();
    match shutdown_plan(&c) {
        Ok(ShutdownPlan::Run { program, args }) => {
            assert_eq!(program, "systemctl");
            assert_eq!(args, vec!["poweroff"]);
        }
        _ => panic!(),
    }
    c.shutdown_command = "  shutdown\t-h   now ".to_string();
    match shutdown_plan(&c) {
        Ok(ShutdownPlan::Run { program, args }) => {
            assert_eq!(program, "shutdown");
            assert_eq!(args, vec!["-h", "now"]);
        }
        _ => panic!(),
    }
    c.shutdown_command = "   ".to_string();
    match shutdown_plan(&c) {
        Err(e) => assert_eq!(e, "shutdown_command is empty"),
        _ => panic!(),
    }
    c.dry_run = true;
    match shutdown_plan(&c) {
        Ok(ShutdownPlan::DryRun(m)) => assert_eq!(m, "dry_run=true, skipped shutdown command:    "),
        _ => panic!(),
    }
}
