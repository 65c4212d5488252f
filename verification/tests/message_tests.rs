use daily_poweroff::config::Language;
use daily_poweroff::messages::{
    human_remaining, message_action_dates, message_enabled, message_language_set,
    message_poweroff_now, message_poweroff_warning, message_set_time, message_test_broadcast,
    plural, status_label, systemd_unit, usage_text,
};

#[test]
fn plural_endings() {
    assert_eq!(plural(1), "");
    assert_eq!(plural(0), "s");
    assert_eq!(plural(2), "s");
}

#[test]
fn human_remaining_english() {
    assert_eq!(human_remaining(3600, Language::En), "1 hour");
    assert_eq!(human_remaining(7200, Language::En), "2 hours");
    assert_eq!(human_remaining(3660, Language::En), "1 hour 1 minute");
    assert_eq!(human_remaining(7325, Language::En), "2 hours 2 minutes");
    assert_eq!(human_remaining(60, Language::En), "1 minute");
    assert_eq!(human_remaining(61, Language::En), "2 minutes");
    assert_eq!(human_remaining(3599, Language::En), "60 minutes");
    assert_eq!(human_remaining(59, Language::En), "59 seconds");
    assert_eq!(human_remaining(1, Language::En), "1 second");
    assert_eq!(human_remaining(0, Language::En), "0 seconds");
}

#[test]
fn human_remaining_chinese() {
    assert_eq!(human_remaining(3600, Language::ZhCn), "1小时");
    assert_eq!(human_remaining(5400, Language::ZhCn), "1小时30分钟");
    assert_eq!(human_remaining(90, Language::ZhCn), "2分钟");
    assert_eq!(human_remaining(30, Language::ZhCn), "30秒");
}

#[test]
fn fixed_messages() {
    assert_eq!(
        message_test_broadcast(Language::En),
        "daily-poweroff test broadcast: TTY broadcast is working."
    );
    assert_eq!(
        message_test_broadcast(Language::ZhCn),
        "daily-poweroff 测试广播：TTY 广播通道可用。"
    );
    assert_eq!(message_enabled(Language::En, true), "enabled");
    assert_eq!(message_enabled(Language::En, false), "disabled");
    assert_eq!(message_enabled(Language::ZhCn, true), "已启用");
    assert_eq!(message_enabled(Language::ZhCn, false), "已停用");
    assert_eq!(message_language_set(Language::En), "language set to en");
    assert_eq!(message_language_set(Language::ZhCn), "语言已设置为 zh-CN");
}

#[test]
fn messages_with_values() {
    assert_eq!(
        message_set_time(Language::En, "17:30".to_string()),
        "set daily poweroff time to 17:30"
    );
    assert_eq!(
        message_set_time(Language::ZhCn, "17:30".to_string()),
        "已设置每日关机时间为 17:30"
    );
    assert_eq!(
        message_action_dates(Language::En, true, "2026-05-25, 2026-05-26"),
        "cancelled: 2026-05-25, 2026-05-26"
    );
    assert_eq!(
        message_action_dates(Language::En, false, "2026-05-25"),
        "resumed: 2026-05-25"
    );
    assert_eq!(
        message_action_dates(Language::ZhCn, true, "2026-05-25"),
        "已取消：2026-05-25"
    );
    assert_eq!(
        message_action_dates(Language::ZhCn, false, "2026-05-25"),
        "已恢复：2026-05-25"
    );
    assert_eq!(
        message_poweroff_now(Language::En, "2026-05-25", "17:30".to_string()),
        "Powering off now\nScheduled: 2026-05-25 17:30"
    );
    assert_eq!(
        message_poweroff_now(Language::ZhCn, "2026-05-25", "17:30".to_string()),
        "现在关机\n计划时间：2026-05-25 17:30"
    );
    assert_eq!(
        message_poweroff_warning(Language::En, 300, "2026-05-25", "17:30".to_string()),
        "Poweroff in 5 minutes\nScheduled: 2026-05-25 17:30\nCancel: sudo daily-poweroff cancel"
    );
    assert_eq!(
        message_poweroff_warning(Language::ZhCn, 10, "2026-05-25", "17:30".to_string()),
        "10秒 后关机\n计划时间：2026-05-25 17:30\n取消：sudo daily-poweroff cancel"
    );
}

#[test]
fn status_labels() {
    assert_eq!(status_label(Language::En, "not_set"), "not set");
    assert_eq!(status_label(Language::En, "cancelled_dates"), "cancelled_dates");
    assert_eq!(status_label(Language::ZhCn, "next_shutdown"), "下一次关机");
    assert_eq!(status_label(Language::ZhCn, "none"), "无");
    assert_eq!(status_label(Language::En, "bogus"), "unknown");
    assert_eq!(status_label(Language::ZhCn, "bogus"), "unknown");
}

#[test]
fn usage_and_unit() {
    assert!(usage_text(Language::En).starts_with("daily-poweroff\n\nUsage:\n"));
    assert!(usage_text(Language::En).contains("-c, --config PATH    default: /etc/daily-poweroff.conf"));
    assert!(usage_text(Language::ZhCn).contains("用法："));
    let unit = systemd_unit();
    assert!(unit.contains("ExecStart=/usr/local/bin/daily-poweroff daemon\n"));
    assert!(unit.starts_with("[Unit]\nDescription=Daily Poweroff daemon\n"));
    assert!(unit.ends_with("[Install]\nWantedBy=multi-user.target\n"));
}
