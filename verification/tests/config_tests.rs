use daily_poweroff::config::{
    comma_values, format_language, format_time, normalize_warnings, parse_bool, parse_language,
    parse_time, parse_warning_minutes, parse_warning_seconds, warning_minutes_in_range, Config,
    Language, TimeOfDay,
};

#[test]
fn parse_bool_accepts_documented_spellings() {
    for v in ["true", "yes", "1", "on"] {
        assert_eq!(parse_bool(v), Ok(true));
    }
    for v in ["false", "no", "0", "off"] {
        assert_eq!(parse_bool(v), Ok(false));
    }
    assert_eq!(parse_bool("TRUE"), Err("invalid boolean: TRUE".to_string()));
    assert_eq!(parse_bool(""), Err("invalid boolean: ".to_string()));
}

#[test]
fn parse_and_format_language() {
    assert_eq!(parse_language("en"), Ok(Language::En));
    assert_eq!(parse_language("en-US"), Ok(Language::En));
    assert_eq!(parse_language("zh-CN"), Ok(Language::ZhCn));
    assert_eq!(parse_language("zh_cn"), Ok(Language::ZhCn));
    assert_eq!(parse_language("zh"), Ok(Language::ZhCn));
    assert_eq!(
        parse_language("fr"),
        Err("invalid language: fr; expected en or zh-CN".to_string())
    );
    assert_eq!(format_language(Language::En), "en");
    assert_eq!(format_language(Language::ZhCn), "zh-CN");
}

#[test]
fn parse_time_values_and_errors() {
    assert_eq!(parse_time("17:30"), Ok(TimeOfDay { hour: 17, minute: 30 }));
    assert_eq!(parse_time("7:5"), Ok(TimeOfDay { hour: 7, minute: 5 }));
    assert_eq!(parse_time("00:00"), Ok(TimeOfDay { hour: 0, minute: 0 }));
    assert_eq!(parse_time("+23:59"), Ok(TimeOfDay { hour: 23, minute: 59 }));
    assert_eq!(
        parse_time("1730"),
        Err("invalid time: 1730; expected HH:MM".to_string())
    );
    assert_eq!(
        parse_time("ab:30"),
        Err("invalid hour in time: ab:30".to_string())
    );
    assert_eq!(
        parse_time("10:3x"),
        Err("invalid minute in time: 10:3x".to_string())
    );
    assert_eq!(
        parse_time("10:30:00"),
        Err("invalid minute in time: 10:30:00".to_string())
    );
    assert_eq!(
        parse_time("24:00"),
        Err("invalid time: 24:00; expected 00:00 through 23:59".to_string())
    );
    assert_eq!(
        parse_time("12:60"),
        Err("invalid time: 12:60; expected 00:00 through 23:59".to_string())
    );
    assert_eq!(
        parse_time(" 12:00"),
        Err("invalid hour in time:  12:00".to_string())
    );
}

#[test]
fn format_time_pads_two_digits() {
    assert_eq!(format_time(TimeOfDay { hour: 7, minute: 5 }), "07:05");
    assert_eq!(format_time(TimeOfDay { hour: 17, minute: 30 }), "17:30");
}

#[test]
fn comma_values_trims_and_drops_empty_parts() {
    assert_eq!(comma_values(" a, b ,,c ,"), vec!["a", "b", "c"]);
    assert_eq!(comma_values(""), Vec::<String>::new());
    assert_eq!(comma_values(" , "), Vec::<String>::new());
}

#[test]
fn normalize_warnings_sorts_descending_without_repeats() {
    let mut w = vec![10, 600, 30, 600, 3600];
    assert_eq!(normalize_warnings(&mut w), Ok(()));
    assert_eq!(w, vec![3600, 600, 30, 10]);
    let mut empty: Vec<i64> = vec![];
    assert_eq!(
        normalize_warnings(&mut empty),
        Err("warning list cannot be empty".to_string())
    );
}

#[test]
fn warning_minutes_become_seconds() {
    assert_eq!(parse_warning_minutes("1,60,30,1"), Ok(vec![3600, 1800, 60]));
    assert_eq!(
        parse_warning_minutes("5,x"),
        Err("invalid warning minute: x".to_string())
    );
    assert_eq!(
        parse_warning_minutes("5,0"),
        Err("warning minutes must be at least 1".to_string())
    );
    assert_eq!(
        parse_warning_minutes(" , "),
        Err("warning list cannot be empty".to_string())
    );
    assert!(warning_minutes_in_range("1,2,3"));
    assert!(!warning_minutes_in_range("1,9223372036854775807"));
    assert!(warning_minutes_in_range("x,9223372036854775807"));
}

#[test]
fn warning_seconds_parse() {
    assert_eq!(parse_warning_seconds("10, 30,3600"), Ok(vec![3600, 30, 10]));
    assert_eq!(
        parse_warning_seconds("10,-5"),
        Err("warning seconds must be at least 1".to_string())
    );
    assert_eq!(
        parse_warning_seconds("1.5"),
        Err("invalid warning second: 1.5".to_string())
    );
}

#[test]
fn default_config() {
    let c = Config::default();
    assert!(c.enabled);
    assert_eq!(c.shutdown_time, None);
    assert!(c.canceled_dates.is_empty());
    assert_eq!(
        c.warning_seconds,
        vec![3600, 1800, 900, 600, 300, 180, 120, 60, 30, 10]
    );
    assert_eq!(c.shutdown_command, "systemctl poweroff");
    assert!(!c.dry_run);
    assert_eq!(c.language, Language::En);
}

#[test]
fn parse_documented_example_file() {
    let text = "enabled=true\ntime=17:30\ncanceled_dates=2026-05-25,2026-05-26\nwarning_seconds=3600,1800,900,600,300,180,120,60,30,10\nshutdown_command=systemctl poweroff\ndry_run=false\nlanguage=en\n";
    let c = Config::parse(text).unwrap();
    assert!(c.enabled);
    assert_eq!(c.shutdown_time, Some(TimeOfDay { hour: 17, minute: 30 }));
    assert_eq!(c.canceled_dates, vec!["2026-05-25", "2026-05-26"]);
    assert_eq!(
        c.warning_seconds,
        vec![3600, 1800, 900, 600, 300, 180, 120, 60, 30, 10]
    );
    assert_eq!(c.shutdown_command, "systemctl poweroff");
    assert!(!c.dry_run);
    assert_eq!(c.language, Language::En);
}

#[test]
fn parse_skips_comments_blank_lines_and_trims() {
    let text = "# comment\n\n   \n  time = 08:05 \r\n dry_run=yes\nlanguage=zh\nwarning_seconds=10,30,10\ncanceled_dates= 2026-05-26 , 2026-05-25,2026-05-26\nshutdown_command=  echo a=b  \n";
    let c = Config::parse(text).unwrap();
    assert_eq!(c.shutdown_time, Some(TimeOfDay { hour: 8, minute: 5 }));
    assert!(c.dry_run);
    assert_eq!(c.language, Language::ZhCn);
    assert_eq!(c.warning_seconds, vec![30, 10]);
    assert_eq!(c.canceled_dates, vec!["2026-05-25", "2026-05-26"]);
    assert_eq!(c.shutdown_command, "echo a=b");
}

#[test]
fn parse_empty_time_and_later_lines_win() {
    let c = Config::parse("time=10:00\ntime=\ncanceled_dates=2026-01-01\ncanceled_dates=\n").unwrap();
    assert_eq!(c.shutdown_time, None);
    assert!(c.canceled_dates.is_empty());
}

#[test]
fn parse_errors_name_the_line() {
    assert_eq!(
        Config::parse("enabled=true\nbogus line\n").unwrap_err(),
        "invalid config line 2: bogus line"
    );
    assert_eq!(
        Config::parse("\n\ncolor=red\n").unwrap_err(),
        "unknown config key on line 3: color"
    );
    assert_eq!(
        Config::parse("enabled=maybe\n").unwrap_err(),
        "invalid boolean: maybe"
    );
    assert_eq!(
        Config::parse("canceled_dates=2026-05-25,2026-13-01\n").unwrap_err(),
        "invalid date: 2026-13-01"
    );
    assert_eq!(
        Config::parse("warning_seconds=\n").unwrap_err(),
        "warning list cannot be empty"
    );
    assert_eq!(
        Config::parse("language=de\n").unwrap_err(),
        "invalid language: de; expected en or zh-CN"
    );
}

#[test]
fn render_writes_every_setting() {
    let mut c = Config::default();
    c.shutdown_time = Some(TimeOfDay { hour: 7, minute: 5 });
    c.canceled_dates = vec!["2026-05-25".to_string(), "2026-05-26".to_string()];
    c.language = Language::ZhCn;
    assert_eq!(
        c.render(),
        "# Managed by daily-poweroff. Edit carefully, or use the CLI.\nenabled=true\ntime=07:05\ncanceled_dates=2026-05-25,2026-05-26\nwarning_seconds=3600,1800,900,600,300,180,120,60,30,10\nshutdown_command=systemctl poweroff\ndry_run=false\nlanguage=zh-CN\n"
    );
    let d = Config::default();
    assert_eq!(
        d.render(),
        "# Managed by daily-poweroff. Edit carefully, or use the CLI.\nenabled=true\ntime=\ncanceled_dates=\nwarning_seconds=3600,1800,900,600,300,180,120,60,30,10\nshutdown_command=systemctl poweroff\ndry_run=false\nlanguage=en\n"
    );
}

#[test]
fn render_then_parse_gives_the_configuration_back() {
    let mut c = Config::default();
    c.enabled = false;
    c.shutdown_time = Some(TimeOfDay { hour: 23, minute: 59 });
    c.canceled_dates = vec!["+2026-5-7".to_string(), "2026-05-25".to_string()];
    c.warning_seconds = vec![7200, 45, 1];
    c.shutdown_command = "shutdown -h now".to_string();
    c.dry_run = true;
    c.language = Language::ZhCn;
    let back = Config::parse(&c.render()).unwrap();
    assert_eq!(back.enabled, c.enabled);
    assert_eq!(back.shutdown_time, c.shutdown_time);
    assert_eq!(back.canceled_dates, c.canceled_dates);
    assert_eq!(back.warning_seconds, c.warning_seconds);
    assert_eq!(back.shutdown_command, c.shutdown_command);
    assert_eq!(back.dry_run, c.dry_run);
    assert_eq!(back.language, c.language);
}

#[test]
fn a_loaded_file_saves_and_loads_to_the_same_configuration() {
    let text = "  language = zh_cn\nwarning_seconds=5,600,5\ncanceled_dates=2026-6-1, 2026-05-31\ntime=7:5\nshutdown_command=  halt -p \n";
    let first = Config::parse(text).unwrap();
    let again = Config::parse(&first.render()).unwrap();
    assert_eq!(again.render(), first.render());
    assert_eq!(again.canceled_dates, vec!["2026-05-31", "2026-6-1"]);
    assert_eq!(again.warning_seconds, vec![600, 5]);
    assert_eq!(again.shutdown_command, "halt -p");
}

#[test]
fn a_time_written_reads_back() {
    for (h, m) in [(0, 0), (7, 5), (23, 59)] {
        let t = TimeOfDay { hour: h, minute: m };
        assert_eq!(parse_time(&format_time(t)), Ok(t));
    }
}
