//! The texts the scheduler shows and broadcasts, in English and Chinese.
use vstd::prelude::*;
use crate::calendar::cat;
use crate::config::Language;
use crate::text::{int_str, push_int, str_eq};

verus! {

/// The message of a test broadcast.
pub open spec fn spec_message_test_broadcast(language: Language) -> Seq<char> {
    match language {
        Language::En => "daily-poweroff test broadcast: TTY broadcast is working."@,
        Language::ZhCn => "daily-poweroff 测试广播：TTY 广播通道可用。"@,
    }
}

pub fn message_test_broadcast(language: Language) -> (r: &'static str)
    ensures
        r@ == spec_message_test_broadcast(language),
{
    match language {
        Language::En => "daily-poweroff test broadcast: TTY broadcast is working.",
        Language::ZhCn => "daily-poweroff 测试广播：TTY 广播通道可用。",
    }
}

/// The confirmation of a new poweroff time.
pub open spec fn spec_message_set_time(language: Language, time: Seq<char>) -> Seq<char> {
    match language {
        Language::En => "set daily poweroff time to "@ + time,
        Language::ZhCn => "已设置每日关机时间为 "@ + time,
    }
}

pub fn message_set_time(language: Language, time: String) -> (r: String)
    ensures
        r@ == spec_message_set_time(language, time@),
{
    match language {
        Language::En => cat("set daily poweroff time to ", time.as_str()),
        Language::ZhCn => cat("已设置每日关机时间为 ", time.as_str()),
    }
}

/// The confirmation of canceled (or resumed) dates.
pub open spec fn spec_message_action_dates(language: Language, cancel: bool, dates: Seq<char>) -> Seq<
    char,
> {
    match (language, cancel) {
        (Language::En, true) => "cancelled: "@ + dates,
        (Language::En, false) => "resumed: "@ + dates,
        (Language::ZhCn, true) => "已取消："@ + dates,
        (Language::ZhCn, false) => "已恢复："@ + dates,
    }
}

pub fn message_action_dates(language: Language, cancel: bool, dates: &str) -> (r: String)
    ensures
        r@ == spec_message_action_dates(language, cancel, dates@),
{
    match (language, cancel) {
        (Language::En, true) => cat("cancelled: ", dates),
        (Language::En, false) => cat("resumed: ", dates),
        (Language::ZhCn, true) => cat("已取消：", dates),
        (Language::ZhCn, false) => cat("已恢复：", dates),
    }
}

/// The confirmation of enabling or disabling the schedule.
pub open spec fn spec_message_enabled(language: Language, enabled: bool) -> Seq<char> {
    match (language, enabled) {
        (Language::En, true) => "enabled"@,
        (Language::En, false) => "disabled"@,
        (Language::ZhCn, true) => "已启用"@,
        (Language::ZhCn, false) => "已停用"@,
    }
}

pub fn message_enabled(language: Language, enabled: bool) -> (r: &'static str)
    ensures
        r@ == spec_message_enabled(language, enabled),
{
    match (language, enabled) {
        (Language::En, true) => "enabled",
        (Language::En, false) => "disabled",
        (Language::ZhCn, true) => "已启用",
        (Language::ZhCn, false) => "已停用",
    }
}

/// The confirmation of a new language.
pub open spec fn spec_message_language_set(language: Language) -> Seq<char> {
    match language {
        Language::En => "language set to en"@,
        Language::ZhCn => "语言已设置为 zh-CN"@,
    }
}

pub fn message_language_set(language: Language) -> (r: &'static str)
    ensures
        r@ == spec_message_language_set(language),
{
    match language {
        Language::En => "language set to en",
        Language::ZhCn => "语言已设置为 zh-CN",
    }
}

/// The broadcast at the moment of the poweroff.
pub open spec fn spec_message_poweroff_now(language: Language, date: Seq<char>, time: Seq<char>) -> Seq<
    char,
> {
    match language {
        Language::En => "Powering off now\nScheduled: "@ + date + " "@ + time,
        Language::ZhCn => "现在关机\n计划时间："@ + date + " "@ + time,
    }
}

pub fn message_poweroff_now(language: Language, date: &str, time: String) -> (r: String)
    ensures
        r@ == spec_message_poweroff_now(language, date@, time@),
{
    let mut s = match language {
        Language::En => String::from_str("Powering off now\nScheduled: "),
        Language::ZhCn => String::from_str("现在关机\n计划时间："),
    };
    s.append(date);
    s.append(" ");
    s.append(time.as_str());
    s
}

/// The broadcast ahead of the poweroff.
#[verifier::opaque]
pub open spec fn spec_message_poweroff_warning(
    language: Language,
    remaining: int,
    date: Seq<char>,
    time: Seq<char>,
) -> Seq<char> {
    match language {
        Language::En => "Poweroff in "@ + spec_human_remaining(remaining, language)
            + "\nScheduled: "@ + date + " "@ + time + "\nCancel: sudo daily-poweroff cancel"@,
        Language::ZhCn => spec_human_remaining(remaining, language) + " 后关机\n计划时间："@
            + date + " "@ + time + "\n取消：sudo daily-poweroff cancel"@,
    }
}

pub fn message_poweroff_warning(language: Language, remaining: i64, date: &str, time: String) -> (r:
    String)
    ensures
        r@ == spec_message_poweroff_warning(language, remaining as int, date@, time@),
{
    proof {
        reveal(spec_message_poweroff_warning);
    }
    let h = human_remaining(remaining, language);
    match language {
        Language::En => {
            let mut s = String::from_str("Poweroff in ");
            s.append(h.as_str());
            s.append("\nScheduled: ");
            s.append(date);
            s.append(" ");
            s.append(time.as_str());
            s.append("\nCancel: sudo daily-poweroff cancel");
            s
        },
        Language::ZhCn => {
            let mut s = h;
            s.append(" 后关机\n计划时间：");
            s.append(date);
            s.append(" ");
            s.append(time.as_str());
            s.append("\n取消：sudo daily-poweroff cancel");
            s
        },
    }
}

/// The label of a status line; `unknown` for a key that has none.
pub open spec fn spec_status_label(language: Language, key: Seq<char>) -> Seq<char> {
    match language {
        Language::En => if key == "config"@ {
            "config"@
        } else if key == "enabled"@ {
            "enabled"@
        } else if key == "time"@ {
            "time"@
        } else if key == "now"@ {
            "now"@
        } else if key == "dry_run"@ {
            "dry_run"@
        } else if key == "shutdown_command"@ {
            "shutdown_command"@
        } else if key == "language"@ {
            "language"@
        } else if key == "warning_minutes"@ {
            "warning_minutes"@
        } else if key == "cancelled_dates"@ {
            "cancelled_dates"@
        } else if key == "next_shutdown"@ {
            "next_shutdown"@
        } else if key == "not_set"@ {
            "not set"@
        } else if key == "none"@ {
            "none"@
        } else {
            "unknown"@
        },
        Language::ZhCn => if key == "config"@ {
            "配置"@
        } else if key == "enabled"@ {
            "启用"@
        } else if key == "time"@ {
            "时间"@
        } else if key == "now"@ {
            "当前时间"@
        } else if key == "dry_run"@ {
            "试运行"@
        } else if key == "shutdown_command"@ {
            "关机命令"@
        } else if key == "language"@ {
            "语言"@
        } else if key == "warning_minutes"@ {
            "提醒时间"@
        } else if key == "cancelled_dates"@ {
            "已取消日期"@
        } else if key == "next_shutdown"@ {
            "下一次关机"@
        } else if key == "not_set"@ {
            "未设置"@
        } else if key == "none"@ {
            "无"@
        } else {
            "unknown"@
        },
    }
}

pub fn status_label(language: Language, key: &str) -> (r: &'static str)
    ensures
        r@ == spec_status_label(language, key@),
{
    match language {
        Language::En => if str_eq(key, "config") {
            "config"
        } else if str_eq(key, "enabled") {
            "enabled"
        } else if str_eq(key, "time") {
            "time"
        } else if str_eq(key, "now") {
            "now"
        } else if str_eq(key, "dry_run") {
            "dry_run"
        } else if str_eq(key, "shutdown_command") {
            "shutdown_command"
        } else if str_eq(key, "language") {
            "language"
        } else if str_eq(key, "warning_minutes") {
            "warning_minutes"
        } else if str_eq(key, "cancelled_dates") {
            "cancelled_dates"
        } else if str_eq(key, "next_shutdown") {
            "next_shutdown"
        } else if str_eq(key, "not_set") {
            "not set"
        } else if str_eq(key, "none") {
            "none"
        } else {
            "unknown"
        },
        Language::ZhCn => if str_eq(key, "config") {
            "配置"
        } else if str_eq(key, "enabled") {
            "启用"
        } else if str_eq(key, "time") {
            "时间"
        } else if str_eq(key, "now") {
            "当前时间"
        } else if str_eq(key, "dry_run") {
            "试运行"
        } else if str_eq(key, "shutdown_command") {
            "关机命令"
        } else if str_eq(key, "language") {
            "语言"
        } else if str_eq(key, "warning_minutes") {
            "提醒时间"
        } else if str_eq(key, "cancelled_dates") {
            "已取消日期"
        } else if str_eq(key, "next_shutdown") {
            "下一次关机"
        } else if str_eq(key, "not_set") {
            "未设置"
        } else if str_eq(key, "none") {
            "无"
        } else {
            "unknown"
        },
    }
}

/// The English plural ending for a count: none for exactly one.
pub open spec fn spec_plural(value: int) -> Seq<char> {
    if value == 1 {
        ""@
    } else {
        "s"@
    }
}

pub fn plural(value: i64) -> (r: &'static str)
    ensures
        r@ == spec_plural(value as int),
{
    if value == 1 {
        ""
    } else {
        "s"
    }
}

/// A number of seconds in words: whole hours and minutes from an hour on,
/// minutes rounded up from a minute on, seconds below that.
#[verifier::opaque]
pub open spec fn spec_human_remaining(seconds: int, language: Language) -> Seq<char> {
    if seconds >= 3600 {
        let hours = seconds / 3600;
        let minutes = (seconds % 3600) / 60;
        match language {
            Language::En => if minutes == 0 {
                int_str(hours) + " hour"@ + spec_plural(hours)
            } else {
                int_str(hours) + " hour"@ + spec_plural(hours) + " "@ + int_str(minutes)
                    + " minute"@ + spec_plural(minutes)
            },
            Language::ZhCn => if minutes == 0 {
                int_str(hours) + "小时"@
            } else {
                int_str(hours) + "小时"@ + int_str(minutes) + "分钟"@
            },
        }
    } else if seconds >= 60 {
        let minutes = (seconds + 59) / 60;
        match language {
            Language::En => int_str(minutes) + " minute"@ + spec_plural(minutes),
            Language::ZhCn => int_str(minutes) + "分钟"@,
        }
    } else {
        match language {
            Language::En => int_str(seconds) + " second"@ + spec_plural(seconds),
            Language::ZhCn => int_str(seconds) + "秒"@,
        }
    }
}

pub fn human_remaining(seconds: i64, language: Language) -> (r: String)
    ensures
        r@ == spec_human_remaining(seconds as int, language),
{
    proof {
        reveal(spec_human_remaining);
    }
    let mut s = String::new();
    if seconds >= 3600 {
        let hours = seconds / 3600;
        let minutes = (seconds % 3600) / 60;
        push_int(&mut s, hours);
        match language {
            Language::En => {
                s.append(" hour");
                s.append(plural(hours));
                if minutes != 0 {
                    s.append(" ");
                    push_int(&mut s, minutes);
                    s.append(" minute");
                    s.append(plural(minutes));
                }
            },
            Language::ZhCn => {
                s.append("小时");
                if minutes != 0 {
                    push_int(&mut s, minutes);
                    s.append("分钟");
                }
            },
        }
    } else if seconds >= 60 {
        let minutes = (seconds + 59) / 60;
        push_int(&mut s, minutes);
        match language {
            Language::En => {
                s.append(" minute");
                s.append(plural(minutes));
            },
            Language::ZhCn => {
                s.append("分钟");
            },
        }
    } else {
        push_int(&mut s, seconds);
        match language {
            Language::En => {
                s.append(" second");
                s.append(plural(seconds));
            },
            Language::ZhCn => {
                s.append("秒");
            },
        }
    }
    assert(s@ =~= spec_human_remaining(seconds as int, language));
    s
}

/// From an hour on, the remaining time is the whole hours `h` and the whole
/// minutes `m` past them that fit in it (`h * 3600 + m * 60 <= seconds`, with
/// less than a minute left over), the minutes left out when there are none.
pub proof fn lemma_human_remaining_hours(seconds: int, h: int, m: int)
    requires
        seconds >= 3600,
        0 <= m < 60,
        h * 3600 + m * 60 <= seconds < h * 3600 + m * 60 + 60,
    ensures
        spec_human_remaining(seconds, Language::En) == if m == 0 {
            int_str(h) + " hour"@ + spec_plural(h)
        } else {
            int_str(h) + " hour"@ + spec_plural(h) + " "@ + int_str(m) + " minute"@ + spec_plural(m)
        },
        spec_human_remaining(seconds, Language::ZhCn) == if m == 0 {
            int_str(h) + "小时"@
        } else {
            int_str(h) + "小时"@ + int_str(m) + "分钟"@
        },
{
    reveal(spec_human_remaining);
    let r = seconds - h * 3600;
    assert(h * 3600 == 3600 * h) by (nonlinear_arith);
    vstd::arithmetic::div_mod::lemma_fundamental_div_mod_converse(seconds, 3600, h, r);
    vstd::arithmetic::div_mod::lemma_fundamental_div_mod_converse(r, 60, m, r - m * 60);
}

/// From a minute to an hour, the remaining time is the minutes `m` rounded
/// up: the least `m` with `seconds <= m * 60`.
pub proof fn lemma_human_remaining_minutes(seconds: int, m: int)
    requires
        60 <= seconds < 3600,
        m * 60 - 60 < seconds <= m * 60,
    ensures
        spec_human_remaining(seconds, Language::En) == int_str(m) + " minute"@ + spec_plural(m),
        spec_human_remaining(seconds, Language::ZhCn) == int_str(m) + "分钟"@,
{
    reveal(spec_human_remaining);
    vstd::arithmetic::div_mod::lemma_fundamental_div_mod_converse(
        seconds + 59,
        60,
        m,
        seconds + 59 - m * 60,
    );
}

/// Under a minute, the remaining time is the seconds themselves.
pub proof fn lemma_human_remaining_seconds(seconds: int)
    requires
        seconds < 60,
    ensures
        spec_human_remaining(seconds, Language::En) == int_str(seconds) + " second"@ + spec_plural(
            seconds,
        ),
        spec_human_remaining(seconds, Language::ZhCn) == int_str(seconds) + "秒"@,
{
    reveal(spec_human_remaining);
}

/// The usage text in English.
pub open spec fn usage_en() -> Seq<char> {
    "daily-poweroff

Usage:
  daily-poweroff set HH:MM [--warning-minutes 60,30,15,10,5,3,2,1] [--dry-run true|false]
  daily-poweroff cancel [YYYY-MM-DD ...]
  daily-poweroff cancel --days N [--from YYYY-MM-DD]
  daily-poweroff resume [YYYY-MM-DD ...]
  daily-poweroff resume --days N [--from YYYY-MM-DD]
  daily-poweroff status
  daily-poweroff enable|disable
  daily-poweroff set-language en|zh-CN
  daily-poweroff daemon
  daily-poweroff test-broadcast
  daily-poweroff install-systemd

Global options:
  -c, --config PATH    default: /etc/daily-poweroff.conf

Examples:
  sudo daily-poweroff set 17:30
  sudo daily-poweroff cancel
  sudo daily-poweroff cancel --days 3
  sudo daily-poweroff cancel --from 2026-05-25 --days 3
  sudo daily-poweroff resume --days 3
  sudo daily-poweroff resume 2026-05-26
  sudo daily-poweroff set-language zh-CN

When no explicit date or --from is given, cancel/resume start from the next
scheduled poweroff date.
"@
}

/// The usage text in Chinese.
pub open spec fn usage_zh_cn() -> Seq<char> {
    "daily-poweroff

用法：
  daily-poweroff set HH:MM [--warning-minutes 60,30,15,10,5,3,2,1] [--dry-run true|false]
  daily-poweroff cancel [YYYY-MM-DD ...]
  daily-poweroff cancel --days N [--from YYYY-MM-DD]
  daily-poweroff resume [YYYY-MM-DD ...]
  daily-poweroff resume --days N [--from YYYY-MM-DD]
  daily-poweroff status
  daily-poweroff enable|disable
  daily-poweroff set-language en|zh-CN
  daily-poweroff daemon
  daily-poweroff test-broadcast
  daily-poweroff install-systemd

全局选项：
  -c, --config PATH    默认：/etc/daily-poweroff.conf

示例：
  sudo daily-poweroff set 17:30
  sudo daily-poweroff cancel
  sudo daily-poweroff cancel --days 3
  sudo daily-poweroff cancel --from 2026-05-25 --days 3
  sudo daily-poweroff resume --days 3
  sudo daily-poweroff resume 2026-05-26
  sudo daily-poweroff set-language zh-CN

不指定具体日期或 --from 时，cancel/resume 会从下一次计划关机日期开始。
"@
}

/// The usage text in the given language (printed followed by a newline).
pub fn usage_text(language: Language) -> (r: &'static str)
    ensures
        r@ == match language {
            Language::En => usage_en(),
            Language::ZhCn => usage_zh_cn(),
        },
{
    match language {
        Language::En => "daily-poweroff

Usage:
  daily-poweroff set HH:MM [--warning-minutes 60,30,15,10,5,3,2,1] [--dry-run true|false]
  daily-poweroff cancel [YYYY-MM-DD ...]
  daily-poweroff cancel --days N [--from YYYY-MM-DD]
  daily-poweroff resume [YYYY-MM-DD ...]
  daily-poweroff resume --days N [--from YYYY-MM-DD]
  daily-poweroff status
  daily-poweroff enable|disable
  daily-poweroff set-language en|zh-CN
  daily-poweroff daemon
  daily-poweroff test-broadcast
  daily-poweroff install-systemd

Global options:
  -c, --config PATH    default: /etc/daily-poweroff.conf

Examples:
  sudo daily-poweroff set 17:30
  sudo daily-poweroff cancel
  sudo daily-poweroff cancel --days 3
  sudo daily-poweroff cancel --from 2026-05-25 --days 3
  sudo daily-poweroff resume --days 3
  sudo daily-poweroff resume 2026-05-26
  sudo daily-poweroff set-language zh-CN

When no explicit date or --from is given, cancel/resume start from the next
scheduled poweroff date.
",
        Language::ZhCn => "daily-poweroff

用法：
  daily-poweroff set HH:MM [--warning-minutes 60,30,15,10,5,3,2,1] [--dry-run true|false]
  daily-poweroff cancel [YYYY-MM-DD ...]
  daily-poweroff cancel --days N [--from YYYY-MM-DD]
  daily-poweroff resume [YYYY-MM-DD ...]
  daily-poweroff resume --days N [--from YYYY-MM-DD]
  daily-poweroff status
  daily-poweroff enable|disable
  daily-poweroff set-language en|zh-CN
  daily-poweroff daemon
  daily-poweroff test-broadcast
  daily-poweroff install-systemd

全局选项：
  -c, --config PATH    默认：/etc/daily-poweroff.conf

示例：
  sudo daily-poweroff set 17:30
  sudo daily-poweroff cancel
  sudo daily-poweroff cancel --days 3
  sudo daily-poweroff cancel --from 2026-05-25 --days 3
  sudo daily-poweroff resume --days 3
  sudo daily-poweroff resume 2026-05-26
  sudo daily-poweroff set-language zh-CN

不指定具体日期或 --from 时，cancel/resume 会从下一次计划关机日期开始。
",
    }
}

/// Where the binary is installed.
pub open spec fn system_bin_path() -> Seq<char> {
    "/usr/local/bin/daily-poweroff"@
}

/// The systemd unit that runs the daemon from the installed binary.
pub open spec fn spec_systemd_unit() -> Seq<char> {
    "[Unit]
Description=Daily Poweroff daemon
After=multi-user.target

[Service]
Type=simple
ExecStart="@ + system_bin_path() + " daemon
Restart=always
RestartSec=5

[Install]
WantedBy=multi-user.target
"@
}

pub fn systemd_unit() -> (r: String)
    ensures
        r@ == spec_systemd_unit(),
{
    let mut s = String::from_str(
        "[Unit]
Description=Daily Poweroff daemon
After=multi-user.target

[Service]
Type=simple
ExecStart=",
    );
    s.append("/usr/local/bin/daily-poweroff");
    s.append(
        " daemon
Restart=always
RestartSec=5

[Install]
WantedBy=multi-user.target
",
    );
    s
}

} // verus!
