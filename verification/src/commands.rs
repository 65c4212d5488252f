//! The command line: global options, the command word, and the arguments
//! and effects of `set`, `cancel`/`resume`, `status`, `set-language` and
//! `install-systemd`.
use vstd::prelude::*;
use crate::calendar::{add_days, cat, max_day_offset, parse_date, spec_add_days, spec_parse_date};
use crate::config::{
    bool_text, format_language, format_time, language_name, parse_bool, parse_language,
    parse_time, parse_warning_minutes, spec_parse_bool, spec_parse_language, spec_parse_time,
    spec_parse_warning_minutes, time_text, warning_minutes_fit, warning_minutes_in_range, Config,
    ConfigModel, Language, TimeOfDay,
};
use crate::configfile::{bool_str, push_joined_strs, spec_parse_config};
use crate::dateset::{
    insert_all, insert_str, lemma_insert_sorted, lemma_remove_value, remove_all, remove_str,
    sorted, strs,
};
use crate::messages::{spec_status_label, status_label};
use crate::schedule::{
    default_action_start_date, epoch_view, spec_default_action_start_date, LocalNow,
};
use crate::text::{int_str, join, push_int, str_eq};

verus! {

// ---------------------------------------------------------------------------
// Global options and the command word
// ---------------------------------------------------------------------------

/// The arguments from `i` on with `--config PATH` / `-c PATH` taken out:
/// the last such path wins; a trailing `--config` without a path is an error.
pub open spec fn global_args_from(
    args: Seq<Seq<char>>,
    i: nat,
    path: Option<Seq<char>>,
    cleaned: Seq<Seq<char>>,
) -> Result<(Option<Seq<char>>, Seq<Seq<char>>), Seq<char>>
    decreases args.len() - i,
{
    if i >= args.len() {
        Ok((path, cleaned))
    } else if args[i as int] == "--config"@ || args[i as int] == "-c"@ {
        if i + 1 < args.len() {
            global_args_from(args, i + 2, Some(args[i + 1 as int]), cleaned)
        } else {
            Err("--config requires a file path"@)
        }
    } else {
        global_args_from(args, i + 1, path, cleaned.push(args[i as int]))
    }
}

/// The path given by the global options, if any, and the other arguments.
pub open spec fn spec_config_option(args: Seq<Seq<char>>) -> Result<
    (Option<Seq<char>>, Seq<Seq<char>>),
    Seq<char>,
> {
    global_args_from(args, 0, None, seq![])
}

/// The view of an optional string.
pub open spec fn opt_view(p: Option<String>) -> Option<Seq<char>> {
    match p {
        Some(s) => Some(s@),
        None => None,
    }
}

/// Separates the global option `--config PATH` (or `-c PATH`) from the
/// other arguments: the last path given, if any, and the rest in order.
pub fn config_option(args: Vec<String>) -> (r: Result<(Option<String>, Vec<String>), String>)
    ensures
        match r {
            Ok((p, rest)) => spec_config_option(strs(args@)) == Ok::<
                (Option<Seq<char>>, Seq<Seq<char>>),
                Seq<char>,
            >((opt_view(p), strs(rest@))),
            Err(e) => spec_config_option(strs(args@)) == Err::<
                (Option<Seq<char>>, Seq<Seq<char>>),
                Seq<char>,
            >(e@),
        },
{
    let ghost a = strs(args@);
    let mut config_path: Option<String> = None;
    let mut cleaned: Vec<String> = Vec::new();
    let mut i: usize = 0;
    assert(strs(cleaned@) =~= Seq::<Seq<char>>::empty());
    while i < args.len()
        invariant
            a == strs(args@),
            i <= a.len(),
            spec_config_option(a) == global_args_from(
                a,
                i as nat,
                opt_view(config_path),
                strs(cleaned@),
            ),
        decreases a.len() - i,
    {
        if str_eq(args[i].as_str(), "--config") || str_eq(args[i].as_str(), "-c") {
            if i + 1 < args.len() {
                config_path = Some(args[i + 1].clone());
                i = i + 2;
            } else {
                return Err(String::from_str("--config requires a file path"));
            }
        } else {
            let ghost before = strs(cleaned@);
            cleaned.push(args[i].clone());
            assert(strs(cleaned@) =~= before.push(a[i as int]));
            i = i + 1;
        }
    }
    Ok((config_path, cleaned))
}

/// Separates the global option `--config PATH` (or `-c PATH`) from the
/// other arguments. `default_path` is the path used when none is given.
pub fn parse_global_args(args: Vec<String>, default_path: String) -> (r: Result<
    (String, Vec<String>),
    String,
>)
    ensures
        match spec_config_option(strs(args@)) {
            Ok((p, rest)) => r is Ok && r->Ok_0.0@ == match p {
                Some(x) => x,
                None => default_path@,
            } && strs(r->Ok_0.1@) == rest,
            Err(e) => r is Err && r->Err_0@ == e,
        },
{
    match config_option(args) {
        Ok((Some(p), rest)) => Ok((p, rest)),
        Ok((None, rest)) => Ok((default_path, rest)),
        Err(e) => Err(e),
    }
}

/// The commands of the program.
#[derive(Clone, Copy, Debug, PartialEq, Eq, Structural)]
pub enum Command {
    Usage,
    SetTime,
    Cancel,
    Resume,
    Status,
    Enable,
    Disable,
    Daemon,
    TestBroadcast,
    SetLanguage,
    InstallSystemd,
    PrintSystemd,
}

/// The command named by the first argument (its own arguments follow it).
pub open spec fn spec_parse_command(args: Seq<Seq<char>>) -> Result<Command, Seq<char>> {
    if args.len() == 0 {
        Ok(Command::Usage)
    } else {
        let a = args[0];
        if a == "set"@ {
            Ok(Command::SetTime)
        } else if a == "cancel"@ {
            Ok(Command::Cancel)
        } else if a == "resume"@ || a == "uncancel"@ {
            Ok(Command::Resume)
        } else if a == "status"@ {
            Ok(Command::Status)
        } else if a == "enable"@ {
            Ok(Command::Enable)
        } else if a == "disable"@ {
            Ok(Command::Disable)
        } else if a == "daemon"@ || a == "run"@ {
            Ok(Command::Daemon)
        } else if a == "test-broadcast"@ {
            Ok(Command::TestBroadcast)
        } else if a == "set-language"@ {
            Ok(Command::SetLanguage)
        } else if a == "install-systemd"@ {
            Ok(Command::InstallSystemd)
        } else if a == "print-systemd"@ {
            Ok(Command::PrintSystemd)
        } else if a == "-h"@ || a == "--help"@ || a == "help"@ {
            Ok(Command::Usage)
        } else {
            Err("unknown command: "@ + a)
        }
    }
}

/// Names the command that the arguments (after the global options) ask for.
pub fn parse_command(args: &Vec<String>) -> (r: Result<Command, String>)
    ensures
        match r {
            Ok(c) => spec_parse_command(strs(args@)) == Ok::<Command, Seq<char>>(c),
            Err(e) => spec_parse_command(strs(args@)) == Err::<Command, Seq<char>>(e@),
        },
{
    if args.len() == 0 {
        return Ok(Command::Usage);
    }
    assert(strs(args@)[0] == args@[0]@);
    let a = args[0].as_str();
    if str_eq(a, "set") {
        Ok(Command::SetTime)
    } else if str_eq(a, "cancel") {
        Ok(Command::Cancel)
    } else if str_eq(a, "resume") || str_eq(a, "uncancel") {
        Ok(Command::Resume)
    } else if str_eq(a, "status") {
        Ok(Command::Status)
    } else if str_eq(a, "enable") {
        Ok(Command::Enable)
    } else if str_eq(a, "disable") {
        Ok(Command::Disable)
    } else if str_eq(a, "daemon") || str_eq(a, "run") {
        Ok(Command::Daemon)
    } else if str_eq(a, "test-broadcast") {
        Ok(Command::TestBroadcast)
    } else if str_eq(a, "set-language") {
        Ok(Command::SetLanguage)
    } else if str_eq(a, "install-systemd") {
        Ok(Command::InstallSystemd)
    } else if str_eq(a, "print-systemd") {
        Ok(Command::PrintSystemd)
    } else if str_eq(a, "-h") || str_eq(a, "--help") || str_eq(a, "help") {
        Ok(Command::Usage)
    } else {
        Err(cat("unknown command: ", a))
    }
}

/// The language of the configuration file's text, or English where the
/// file could not be read (`None`) or does not parse.
pub open spec fn spec_config_language_or_default(content: Option<Seq<char>>) -> Language {
    match content {
        None => Language::En,
        Some(t) => match spec_parse_config(t) {
            Ok(c) => c.language,
            Err(_) => Language::En,
        },
    }
}

/// The language to show usage in: that of the configuration if it can be read.
pub fn config_language_or_default(content: Option<&str>) -> (l: Language)
    ensures
        l == spec_config_language_or_default(
            match content {
                Some(t) => Some(t@),
                None => None,
            },
        ),
{
    match content {
        None => Language::En,
        Some(t) => match Config::parse(t) {
            Ok(c) => c.language,
            Err(_) => Language::En,
        },
    }
}

// ---------------------------------------------------------------------------
// set
// ---------------------------------------------------------------------------

/// The time that `set` is given: its first argument.
pub fn set_time_arg(args: &Vec<String>) -> (r: Result<TimeOfDay, String>)
    ensures
        match r {
            Ok(t) => args@.len() > 0 && spec_parse_time(args@[0]@) == Ok::<TimeOfDay, Seq<char>>(t)
                && t.valid(),
            Err(e) => if args@.len() == 0 {
                e@ == "set requires a time like 17:30"@
            } else {
                spec_parse_time(args@[0]@) == Err::<TimeOfDay, Seq<char>>(e@)
            },
        },
{
    if args.len() == 0 {
        return Err(String::from_str("set requires a time like 17:30"));
    }
    parse_time(args[0].as_str())
}

/// The options of `set` from position `i` on applied to `c`.
pub open spec fn set_options_from(args: Seq<Seq<char>>, i: nat, c: ConfigModel) -> Result<
    ConfigModel,
    Seq<char>,
>
    decreases args.len() - i,
{
    if i >= args.len() {
        Ok(c)
    } else if args[i as int] == "--warning-minutes"@ {
        if i + 1 < args.len() {
            match spec_parse_warning_minutes(args[i + 1 as int]) {
                Ok(w) => set_options_from(args, i + 2, ConfigModel { warning_seconds: w, ..c }),
                Err(e) => Err(e),
            }
        } else {
            Err("--warning-minutes requires a comma-separated list"@)
        }
    } else if args[i as int] == "--dry-run"@ {
        if i + 1 < args.len() {
            match spec_parse_bool(args[i + 1 as int]) {
                Ok(b) => set_options_from(args, i + 2, ConfigModel { dry_run: b, ..c }),
                Err(e) => Err(e),
            }
        } else {
            Err("--dry-run requires true or false"@)
        }
    } else {
        Err("unknown set option: "@ + args[i as int])
    }
}

/// No `--warning-minutes` list that `set` reaches holds a minute count
/// whose seconds overflow an `i64`.
pub open spec fn set_options_fit(args: Seq<Seq<char>>, i: nat) -> bool
    decreases args.len() - i,
{
    if i >= args.len() {
        true
    } else if args[i as int] == "--warning-minutes"@ {
        if i + 1 < args.len() {
            warning_minutes_fit(args[i + 1 as int]) && (spec_parse_warning_minutes(args[i + 1 as int]) is Err
                || set_options_fit(args, i + 2))
        } else {
            true
        }
    } else if args[i as int] == "--dry-run"@ {
        if i + 1 < args.len() {
            spec_parse_bool(args[i + 1 as int]) is Err || set_options_fit(args, i + 2)
        } else {
            true
        }
    } else {
        true
    }
}

/// What `set` does to a configuration: enable it, set the time, then apply
/// the options that follow the time.
pub open spec fn spec_apply_set(c: ConfigModel, time: TimeOfDay, args: Seq<Seq<char>>) -> Result<
    ConfigModel,
    Seq<char>,
> {
    set_options_from(args, 1, ConfigModel { enabled: true, shutdown_time: Some(time), ..c })
}

/// Options that were all applied are followed by those appended after them.
proof fn lemma_set_options_append(
    args: Seq<Seq<char>>,
    extra: Seq<Seq<char>>,
    i: nat,
    c: ConfigModel,
)
    requires
        i <= args.len(),
        set_options_from(args, i, c) is Ok,
    ensures
        set_options_from(args + extra, i, c) == set_options_from(
            args + extra,
            args.len(),
            set_options_from(args, i, c)->Ok_0,
        ),
    decreases args.len() - i,
{
    let a2 = args + extra;
    if i < args.len() {
        assert(a2[i as int] == args[i as int]);
        if i + 1 < args.len() {
            assert(a2[i + 1 as int] == args[i + 1 as int]);
        }
        if args[i as int] == "--warning-minutes"@ {
            let w = spec_parse_warning_minutes(args[i + 1 as int])->Ok_0;
            lemma_set_options_append(args, extra, i + 2, ConfigModel { warning_seconds: w, ..c });
        } else if args[i as int] == "--dry-run"@ {
            let b = spec_parse_bool(args[i + 1 as int])->Ok_0;
            lemma_set_options_append(args, extra, i + 2, ConfigModel { dry_run: b, ..c });
        }
    }
}

/// `set` enables the schedule, sets the time, and changes nothing but the
/// warnings and the dry-run flag; with no options it changes nothing else.
pub proof fn lemma_set_keeps_the_rest(c: ConfigModel, time: TimeOfDay, args: Seq<Seq<char>>)
    ensures
        match spec_apply_set(c, time, args) {
            Ok(c2) => {
                &&& c2.enabled
                &&& c2.shutdown_time == Some(time)
                &&& c2.canceled_dates == c.canceled_dates
                &&& c2.shutdown_command == c.shutdown_command
                &&& c2.language == c.language
            },
            Err(_) => true,
        },
        args.len() <= 1 ==> spec_apply_set(c, time, args) == Ok::<ConfigModel, Seq<char>>(
            ConfigModel { enabled: true, shutdown_time: Some(time), ..c },
        ),
{
    lemma_set_options_keep(args, 1, ConfigModel { enabled: true, shutdown_time: Some(time), ..c });
}

proof fn lemma_set_options_keep(args: Seq<Seq<char>>, i: nat, c: ConfigModel)
    ensures
        match set_options_from(args, i, c) {
            Ok(c2) => {
                &&& c2.enabled == c.enabled
                &&& c2.shutdown_time == c.shutdown_time
                &&& c2.canceled_dates == c.canceled_dates
                &&& c2.shutdown_command == c.shutdown_command
                &&& c2.language == c.language
            },
            Err(_) => true,
        },
    decreases args.len() - i,
{
    if i < args.len() && i + 1 < args.len() {
        if args[i as int] == "--warning-minutes"@ {
            match spec_parse_warning_minutes(args[i + 1 as int]) {
                Ok(w) => lemma_set_options_keep(args, i + 2, ConfigModel { warning_seconds: w, ..c }),
                Err(_) => {},
            }
        } else if args[i as int] == "--dry-run"@ {
            match spec_parse_bool(args[i + 1 as int]) {
                Ok(b) => lemma_set_options_keep(args, i + 2, ConfigModel { dry_run: b, ..c }),
                Err(_) => {},
            }
        }
    }
}

/// A `--dry-run V` option at the end of a `set` that succeeds decides the
/// dry-run flag, whatever it was before: it becomes the boolean that `V`
/// reads as, and nothing else changes; a `V` that is no boolean is refused.
pub proof fn lemma_set_dry_run_last(c: ConfigModel, time: TimeOfDay, args: Seq<Seq<char>>, v: Seq<char>)
    requires
        args.len() >= 1,
        spec_apply_set(c, time, args) is Ok,
    ensures
        spec_apply_set(c, time, args + seq!["--dry-run"@, v]) == match spec_parse_bool(v) {
            Ok(b) => Ok::<ConfigModel, Seq<char>>(
                ConfigModel { dry_run: b, ..spec_apply_set(c, time, args)->Ok_0 },
            ),
            Err(e) => Err(e),
        },
{
    let extra = seq!["--dry-run"@, v];
    let c1 = ConfigModel { enabled: true, shutdown_time: Some(time), ..c };
    lemma_set_options_append(args, extra, 1, c1);
    let a2 = args + extra;
    assert(a2[args.len() as int] == "--dry-run"@);
    assert(a2[args.len() + 1 as int] == v);
    assert(a2.len() == args.len() + 2);
    let c2 = set_options_from(args, 1, c1)->Ok_0;
    reveal_strlit("--dry-run");
    reveal_strlit("--warning-minutes");
    assert("--dry-run"@.len() != "--warning-minutes"@.len());
    match spec_parse_bool(v) {
        Ok(b) => {
            assert(set_options_from(a2, args.len() + 2, ConfigModel { dry_run: b, ..c2 })
                == Ok::<ConfigModel, Seq<char>>(ConfigModel { dry_run: b, ..c2 }));
        },
        Err(_) => {},
    }
}

/// A `--warning-minutes LIST` option at the end of a `set` that succeeds
/// decides the warnings: they become those that `LIST` reads as, and nothing
/// else changes; a `LIST` that does not read is refused.
pub proof fn lemma_set_warnings_last(
    c: ConfigModel,
    time: TimeOfDay,
    args: Seq<Seq<char>>,
    v: Seq<char>,
)
    requires
        args.len() >= 1,
        spec_apply_set(c, time, args) is Ok,
    ensures
        spec_apply_set(c, time, args + seq!["--warning-minutes"@, v]) == match spec_parse_warning_minutes(v) {
            Ok(w) => Ok::<ConfigModel, Seq<char>>(
                ConfigModel { warning_seconds: w, ..spec_apply_set(c, time, args)->Ok_0 },
            ),
            Err(e) => Err(e),
        },
{
    let extra = seq!["--warning-minutes"@, v];
    let c1 = ConfigModel { enabled: true, shutdown_time: Some(time), ..c };
    lemma_set_options_append(args, extra, 1, c1);
    let a2 = args + extra;
    assert(a2[args.len() as int] == "--warning-minutes"@);
    assert(a2[args.len() + 1 as int] == v);
    assert(a2.len() == args.len() + 2);
    let c2 = set_options_from(args, 1, c1)->Ok_0;
    match spec_parse_warning_minutes(v) {
        Ok(w) => {
            assert(set_options_from(a2, args.len() + 2, ConfigModel { warning_seconds: w, ..c2 })
                == Ok::<ConfigModel, Seq<char>>(ConfigModel { warning_seconds: w, ..c2 }));
        },
        Err(_) => {},
    }
}

/// Whether the options of `set` can be applied without overflow.
pub fn set_options_in_range(args: &Vec<String>) -> (r: bool)
    ensures
        r == set_options_fit(strs(args@), 1),
{
    let ghost a = strs(args@);
    let mut i: usize = 1;
    while i < args.len()
        invariant
            a == strs(args@),
            i >= 1,
            set_options_fit(a, 1) == set_options_fit(a, i as nat),
        decreases a.len() - i,
    {
        assert(a[i as int] == args@[i as int]@);
        if str_eq(args[i].as_str(), "--warning-minutes") {
            if i + 1 < args.len() {
                assert(a[i + 1] == args@[i + 1]@);
                if !warning_minutes_in_range(args[i + 1].as_str()) {
                    return false;
                }
                match parse_warning_minutes(args[i + 1].as_str()) {
                    Ok(_) => {},
                    Err(_) => return true,
                }
                i = i + 2;
            } else {
                return true;
            }
        } else if str_eq(args[i].as_str(), "--dry-run") {
            if i + 1 < args.len() {
                assert(a[i + 1] == args@[i + 1]@);
                match parse_bool(args[i + 1].as_str()) {
                    Ok(_) => {},
                    Err(_) => return true,
                }
                i = i + 2;
            } else {
                return true;
            }
        } else {
            return true;
        }
    }
    true
}

/// `enable` / `disable`: sets whether the schedule is enabled and changes
/// nothing else.
pub fn set_enabled(config: &mut Config, enabled: bool)
    ensures
        final(config)@ == (ConfigModel { enabled, ..old(config)@ }),
{
    config.enabled = enabled;
}

/// `set-language`: sets the language that `value` names and changes nothing
/// else; a value that names no language is refused, with the configuration
/// left as it was.
pub fn set_language(config: &mut Config, value: &str) -> (r: Result<(), String>)
    ensures
        match spec_parse_language(value@) {
            Ok(l) => r is Ok && final(config)@ == (ConfigModel { language: l, ..old(config)@ }),
            Err(e) => r is Err && r->Err_0@ == e && final(config)@ == old(config)@,
        },
{
    match parse_language(value) {
        Ok(l) => {
            config.language = l;
            Ok(())
        },
        Err(e) => Err(e),
    }
}

/// Applies `set` to the configuration: enables it, sets the time, and
/// applies `--warning-minutes` and `--dry-run` options after the time.
pub fn apply_set(config: &mut Config, time: TimeOfDay, args: &Vec<String>) -> (r: Result<(), String>)
    requires
        set_options_fit(strs(args@), 1),
        old(config)@.wf(),
    ensures
        match r {
            Ok(()) => spec_apply_set(old(config)@, time, strs(args@)) == Ok::<
                ConfigModel,
                Seq<char>,
            >(final(config)@) && final(config)@.wf(),
            Err(e) => spec_apply_set(old(config)@, time, strs(args@)) == Err::<
                ConfigModel,
                Seq<char>,
            >(e@),
        },
{
    let ghost a = strs(args@);
    config.enabled = true;
    config.shutdown_time = Some(time);
    let mut i: usize = 1;
    while i < args.len()
        invariant
            a == strs(args@),
            i >= 1,
            set_options_fit(a, i as nat),
            config@.wf(),
            spec_apply_set(old(config)@, time, a) == set_options_from(a, i as nat, config@),
        decreases a.len() - i,
    {
        assert(a[i as int] == args@[i as int]@);
        if str_eq(args[i].as_str(), "--warning-minutes") {
            if i + 1 < args.len() {
                assert(a[i + 1] == args@[i + 1]@);
                let w = parse_warning_minutes(args[i + 1].as_str())?;
                proof {
                    crate::config::lemma_norm_desc(
                        crate::config::collect_warnings(
                            crate::config::spec_comma_values(a[i + 1]),
                            true,
                        )->Ok_0,
                    );
                }
                config.warning_seconds = w;
                i = i + 2;
            } else {
                return Err(String::from_str("--warning-minutes requires a comma-separated list"));
            }
        } else if str_eq(args[i].as_str(), "--dry-run") {
            if i + 1 < args.len() {
                assert(a[i + 1] == args@[i + 1]@);
                config.dry_run = parse_bool(args[i + 1].as_str())?;
                i = i + 2;
            } else {
                return Err(String::from_str("--dry-run requires true or false"));
            }
        } else {
            return Err(cat("unknown set option: ", args[i].as_str()));
        }
    }
    Ok(())
}

// ---------------------------------------------------------------------------
// cancel and resume
// ---------------------------------------------------------------------------

/// The arguments of `cancel` and `resume`.
pub struct CancelRequest {
    /// The first date of a range (`--from`).
    pub from: Option<String>,
    /// The number of dates in a range (`--days`).
    pub days: Option<i64>,
    /// Dates given one by one.
    pub dates: Vec<String>,
}

/// The abstract value of a `CancelRequest`.
pub struct CancelRequestModel {
    pub from: Option<Seq<char>>,
    pub days: Option<int>,
    pub dates: Seq<Seq<char>>,
}

impl View for CancelRequest {
    type V = CancelRequestModel;

    open spec fn view(&self) -> CancelRequestModel {
        CancelRequestModel {
            from: match self.from {
                Some(f) => Some(f@),
                None => None,
            },
            days: match self.days {
                Some(d) => Some(d as int),
                None => None,
            },
            dates: strs(self.dates@),
        }
    }
}

/// The arguments of `cancel`/`resume` from position `i` on: `--days N`
/// (at least 1), `--from DATE`, or dates; a later option replaces an earlier one.
pub open spec fn cancel_args_from(args: Seq<Seq<char>>, i: nat, r: CancelRequestModel) -> Result<
    CancelRequestModel,
    Seq<char>,
>
    decreases args.len() - i,
{
    if i >= args.len() {
        Ok(r)
    } else if args[i as int] == "--days"@ {
        if i + 1 < args.len() {
            match crate::text::parse_integer(args[i + 1 as int], i64::MIN as int, i64::MAX as int) {
                None => Err("--days must be a positive integer"@),
                Some(n) => if n < 1 {
                    Err("--days must be at least 1"@)
                } else {
                    cancel_args_from(args, i + 2, CancelRequestModel { days: Some(n), ..r })
                },
            }
        } else {
            Err("--days requires a positive integer"@)
        }
    } else if args[i as int] == "--from"@ {
        if i + 1 < args.len() {
            match spec_parse_date(args[i + 1 as int]) {
                Err(e) => Err(e),
                Ok(_) => cancel_args_from(
                    args,
                    i + 2,
                    CancelRequestModel { from: Some(args[i + 1 as int]), ..r },
                ),
            }
        } else {
            Err("--from requires YYYY-MM-DD"@)
        }
    } else {
        match spec_parse_date(args[i as int]) {
            Err(e) => Err(e),
            Ok(_) => cancel_args_from(
                args,
                i + 1,
                CancelRequestModel { dates: r.dates.push(args[i as int]), ..r },
            ),
        }
    }
}

/// An empty request.
pub open spec fn empty_request() -> CancelRequestModel {
    CancelRequestModel { from: None, days: None, dates: seq![] }
}

/// Reads the arguments of `cancel` or `resume`.
pub fn parse_cancel_args(args: &Vec<String>) -> (r: Result<CancelRequest, String>)
    ensures
        match r {
            Ok(req) => cancel_args_from(strs(args@), 0, empty_request()) == Ok::<
                CancelRequestModel,
                Seq<char>,
            >(req@),
            Err(e) => cancel_args_from(strs(args@), 0, empty_request()) == Err::<
                CancelRequestModel,
                Seq<char>,
            >(e@),
        },
{
    let ghost a = strs(args@);
    let mut req = CancelRequest { from: None, days: None, dates: Vec::new() };
    assert(req@ == empty_request()) by {
        assert(strs(req.dates@) =~= Seq::<Seq<char>>::empty());
    }
    let mut i: usize = 0;
    while i < args.len()
        invariant
            a == strs(args@),
            cancel_args_from(a, 0, empty_request()) == cancel_args_from(a, i as nat, req@),
        decreases a.len() - i,
    {
        assert(a[i as int] == args@[i as int]@);
        if str_eq(args[i].as_str(), "--days") {
            if i + 1 < args.len() {
                assert(a[i + 1] == args@[i + 1]@);
                let v = crate::text::chars_of(args[i + 1].as_str());
                let n = match crate::text::parse_integer_chars(v.as_slice(), i64::MIN, i64::MAX) {
                    Some(n) => n,
                    None => return Err(String::from_str("--days must be a positive integer")),
                };
                if n < 1 {
                    return Err(String::from_str("--days must be at least 1"));
                }
                req.days = Some(n);
                i = i + 2;
            } else {
                return Err(String::from_str("--days requires a positive integer"));
            }
        } else if str_eq(args[i].as_str(), "--from") {
            if i + 1 < args.len() {
                assert(a[i + 1] == args@[i + 1]@);
                match parse_date(args[i + 1].as_str()) {
                    Err(e) => return Err(e),
                    Ok(_) => {},
                }
                req.from = Some(args[i + 1].clone());
                i = i + 2;
            } else {
                return Err(String::from_str("--from requires YYYY-MM-DD"));
            }
        } else {
            match parse_date(args[i].as_str()) {
                Err(e) => return Err(e),
                Ok(_) => {},
            }
            let ghost before = strs(req.dates@);
            req.dates.push(args[i].clone());
            assert(strs(req.dates@) =~= before.push(a[i as int]));
            i = i + 1;
        }
    }
    Ok(req)
}

/// The dates `from`, `from + 1`, ... up to `count` dates, from offset `k` on;
/// the first date that cannot be computed decides the error.
pub open spec fn date_range(from: Seq<char>, count: int, k: nat) -> Result<Seq<Seq<char>>, Seq<char>>
    decreases count - k,
{
    if k >= count {
        Ok(seq![])
    } else {
        match spec_add_days(from, k as int) {
            Err(e) => Err(e),
            Ok(d) => match date_range(from, count, k + 1) {
                Err(e) => Err(e),
                Ok(rest) => Ok(seq![d] + rest),
            },
        }
    }
}

/// The dates a `cancel` or `resume` request acts on: the explicit dates, or
/// `--days` dates (one by default) from `--from` or else from the date
/// that `default_action_start_date` gives. Explicit dates cannot be combined
/// with `--days` or `--from`.
pub open spec fn spec_cancel_dates(
    req: CancelRequestModel,
    c: ConfigModel,
    now_epoch: int,
    now_date: Seq<char>,
    target: Result<int, Seq<char>>,
) -> Result<Seq<Seq<char>>, Seq<char>> {
    if req.dates.len() > 0 && (req.days is Some || req.from is Some) {
        Err("use explicit dates, or use --days/--from; do not combine them"@)
    } else if req.dates.len() > 0 {
        Ok(req.dates)
    } else {
        let count = match req.days {
            Some(n) => n,
            None => 1,
        };
        let start = match req.from {
            Some(f) => Ok(f),
            None => spec_default_action_start_date(c, now_epoch, now_date, target),
        };
        match start {
            Err(e) => Err(e),
            Ok(f) => date_range(f, count, 0),
        }
    }
}

/// A request whose date range fits: explicit dates, which need no date
/// arithmetic, or no offset beyond `max_day_offset`.
pub open spec fn request_fits(req: CancelRequestModel) -> bool {
    req.dates.len() > 0 || match req.days {
        Some(n) => n <= max_day_offset() + 1,
        None => true,
    }
}


/// The dates that a `cancel` or `resume` request acts on.
pub fn cancel_dates(
    req: &CancelRequest,
    config: &Config,
    now: &LocalNow,
    target_epoch: &Result<i64, String>,
) -> (r: Result<Vec<String>, String>)
    requires
        request_fits(req@),
    ensures
        match r {
            Ok(ds) => spec_cancel_dates(
                req@,
                config@,
                now.epoch as int,
                now.date@,
                epoch_view(*target_epoch),
            ) == Ok::<Seq<Seq<char>>, Seq<char>>(strs(ds@)),
            Err(e) => spec_cancel_dates(
                req@,
                config@,
                now.epoch as int,
                now.date@,
                epoch_view(*target_epoch),
            ) == Err::<Seq<Seq<char>>, Seq<char>>(e@),
        },
{
    if req.dates.len() > 0 && (req.days.is_some() || req.from.is_some()) {
        return Err(String::from_str("use explicit dates, or use --days/--from; do not combine them"));
    }
    if req.dates.len() > 0 {
        let mut out: Vec<String> = Vec::new();
        let mut i: usize = 0;
        while i < req.dates.len()
            invariant
                i <= req.dates@.len(),
                strs(out@) == strs(req.dates@).take(i as int),
            decreases req.dates@.len() - i,
        {
            let ghost before = strs(out@);
            let d = req.dates[i].clone();
            assert(d@ == strs(req.dates@)[i as int]);
            out.push(d);
            assert(strs(out@) =~= before.push(strs(req.dates@)[i as int]));
            assert(strs(req.dates@).take(i + 1) =~= strs(req.dates@).take(i as int).push(
                strs(req.dates@)[i as int],
            ));
            i = i + 1;
        }
        assert(strs(req.dates@).take(req.dates@.len() as int) =~= strs(req.dates@));
        return Ok(out);
    }
    let count: i64 = match req.days {
        Some(n) => n,
        None => 1,
    };
    let from = match &req.from {
        Some(f) => f.clone(),
        None => match default_action_start_date(config, now, target_epoch) {
            Ok(f) => f,
            Err(e) => return Err(e),
        },
    };
    let ghost fv = from@;
    let ghost whole = spec_cancel_dates(
        req@,
        config@,
        now.epoch as int,
        now.date@,
        epoch_view(*target_epoch),
    );
    assert(whole == date_range(fv, count as int, 0));
    let mut out: Vec<String> = Vec::new();
    if count <= 0 {
        assert(strs(out@) =~= Seq::<Seq<char>>::empty());
        return Ok(out);
    }
    let mut k: i64 = 0;
    while k < count
        invariant
            0 <= k <= count,
            count <= max_day_offset() + 1,
            fv == from@,
            whole == date_range(fv, count as int, 0),
            whole == spec_cancel_dates(
                req@,
                config@,
                now.epoch as int,
                now.date@,
                epoch_view(*target_epoch),
            ),
            forall|j: int| 0 <= j < k ==> spec_add_days(fv, j) is Ok,
            strs(out@).len() == k,
            forall|j: int| 0 <= j < k ==> spec_add_days(fv, j) == Ok::<Seq<char>, Seq<char>>(
                #[trigger] strs(out@)[j],
            ),
        decreases count - k,
    {
        match add_days(from.as_str(), k) {
            Ok(d) => {
                let ghost before = strs(out@);
                out.push(d);
                assert(strs(out@) =~= before.push(d@));
            },
            Err(e) => {
                proof {
                    lemma_date_range_err(fv, count as int, k as nat, e@);
                }
                return Err(e);
            },
        }
        k = k + 1;
    }
    proof {
        lemma_date_range_ok(fv, count as int, 0, strs(out@));
        assert(strs(out@).skip(0) =~= strs(out@));
    }
    assert(whole == Ok::<Seq<Seq<char>>, Seq<char>>(strs(out@)));
    Ok(out)
}

/// Where every date of the range is computed, the range is those dates.
proof fn lemma_date_range_ok(from: Seq<char>, count: int, k: nat, ds: Seq<Seq<char>>)
    requires
        k <= count,
        ds.len() == count,
        forall|j: int| 0 <= j < count ==> spec_add_days(from, j) == Ok::<Seq<char>, Seq<char>>(
            #[trigger] ds[j],
        ),
    ensures
        date_range(from, count, k) == Ok::<Seq<Seq<char>>, Seq<char>>(ds.skip(k as int)),
    decreases count - k,
{
    if k < count {
        lemma_date_range_ok(from, count, k + 1, ds);
        assert(spec_add_days(from, k as int) == Ok::<Seq<char>, Seq<char>>(ds[k as int]));
        assert(seq![ds[k as int]] + ds.skip(k + 1 as int) =~= ds.skip(k as int));
    } else {
        assert(ds.skip(k as int) =~= Seq::<Seq<char>>::empty());
    }
}

/// The first date of the range that cannot be computed decides the error.
proof fn lemma_date_range_err(from: Seq<char>, count: int, k: nat, e: Seq<char>)
    requires
        k < count,
        forall|j: int| 0 <= j < k ==> spec_add_days(from, j) is Ok,
        spec_add_days(from, k as int) == Err::<Seq<char>, Seq<char>>(e),
    ensures
        date_range(from, count, 0) == Err::<Seq<Seq<char>>, Seq<char>>(e),
    decreases k,
{
    lemma_date_range_err_from(from, count, 0, k, e);
}

proof fn lemma_date_range_err_from(from: Seq<char>, count: int, i: nat, k: nat, e: Seq<char>)
    requires
        i <= k < count,
        forall|j: int| i <= j < k ==> spec_add_days(from, j) is Ok,
        spec_add_days(from, k as int) == Err::<Seq<char>, Seq<char>>(e),
    ensures
        date_range(from, count, i) == Err::<Seq<Seq<char>>, Seq<char>>(e),
    decreases k - i,
{
    if i < k {
        lemma_date_range_err_from(from, count, i + 1, k, e);
        assert(spec_add_days(from, i as int) is Ok);
    }
}

/// Whether the range of a request fits (see `request_fits`).
pub fn request_in_range(req: &CancelRequest) -> (r: bool)
    ensures
        r == request_fits(req@),
{
    if req.dates.len() > 0 {
        return true;
    }
    match req.days {
        Some(n) => n <= i64::MAX / 86400 + 1,
        None => true,
    }
}

/// Cancels (or resumes) the given dates in the configuration.
pub fn apply_dates(config: &mut Config, dates: &Vec<String>, cancel: bool)
    requires
        old(config)@.wf(),
    ensures
        final(config)@ == (ConfigModel {
            canceled_dates: if cancel {
                insert_all(old(config)@.canceled_dates, strs(dates@))
            } else {
                remove_all(old(config)@.canceled_dates, strs(dates@))
            },
            ..old(config)@
        }),
        final(config)@.wf(),
{
    let ghost ds = strs(dates@);
    let ghost start = config@.canceled_dates;
    let mut i: usize = 0;
    assert(ds.take(0) =~= Seq::<Seq<char>>::empty());
    while i < dates.len()
        invariant
            ds == strs(dates@),
            i <= ds.len(),
            config@ == (ConfigModel {
                canceled_dates: if cancel {
                    insert_all(start, ds.take(i as int))
                } else {
                    remove_all(start, ds.take(i as int))
                },
                ..old(config)@
            }),
            config@.wf(),
        decreases ds.len() - i,
    {
        assert(ds.take(i + 1).drop_last() =~= ds.take(i as int));
        assert(ds.take(i + 1).last() == dates@[i as int]@);
        if cancel {
            insert_str(&mut config.canceled_dates, dates[i].clone());
        } else {
            proof {
                lemma_remove_value(strs(config.canceled_dates@), dates@[i as int]@);
            }
            remove_str(&mut config.canceled_dates, dates[i].as_str());
        }
        i = i + 1;
    }
    assert(ds.take(ds.len() as int) =~= ds);
}

/// The dates joined with `, `, as the confirmation lists them.
pub fn join_dates(dates: &Vec<String>) -> (r: String)
    ensures
        r@ == join(strs(dates@), ", "@),
{
    let mut s = String::new();
    push_joined_strs(&mut s, dates, ", ");
    assert(s@ =~= join(strs(dates@), ", "@));
    s
}

// ---------------------------------------------------------------------------
// set-language and install-systemd
// ---------------------------------------------------------------------------

/// The single argument of `set-language`.
pub fn set_language_arg(args: &Vec<String>) -> (r: Result<String, String>)
    ensures
        match r {
            Ok(v) => args@.len() == 1 && v@ == args@[0]@,
            Err(e) => (args@.len() == 0 && e@ == "set-language requires en or zh-CN"@) || (
            args@.len() > 1 && e@ == "set-language accepts exactly one value: en or zh-CN"@),
        },
{
    if args.len() == 0 {
        return Err(String::from_str("set-language requires en or zh-CN"));
    }
    if args.len() > 1 {
        return Err(String::from_str("set-language accepts exactly one value: en or zh-CN"));
    }
    Ok(args[0].clone())
}

/// `install-systemd` takes no arguments.
pub fn install_systemd_args(args: &Vec<String>) -> (r: Result<(), String>)
    ensures
        match r {
            Ok(()) => args@.len() == 0,
            Err(e) => args@.len() > 0 && e@ == "install-systemd does not take arguments"@,
        },
{
    if args.len() > 0 {
        return Err(String::from_str("install-systemd does not take arguments"));
    }
    Ok(())
}

// ---------------------------------------------------------------------------
// status
// ---------------------------------------------------------------------------

/// A warning offset as the status shows it: whole minutes as a number,
/// anything else as seconds with an `s`.
pub open spec fn minute_text(w: int) -> Seq<char> {
    if w % 60 == 0 {
        int_str(w / 60)
    } else {
        int_str(w) + "s"@
    }
}

/// The warning offsets as the status shows them, joined with commas.
pub open spec fn warnings_minutes_text(ws: Seq<i64>) -> Seq<char> {
    join(ws.map_values(|w: i64| minute_text(w as int)), ","@)
}

/// A status line: label, colon, value.
pub open spec fn status_line(language: Language, key: Seq<char>, value: Seq<char>) -> Seq<char> {
    spec_status_label(language, key) + ": "@ + value + "\n"@
}

/// The status lines before the next poweroff line.
pub open spec fn spec_status_lines(c: ConfigModel, path: Seq<char>, now_date: Seq<char>, now_time: Seq<
    char,
>) -> Seq<char> {
    let l = c.language;
    status_line(l, "config"@, path) + status_line(l, "enabled"@, bool_text(c.enabled))
        + status_line(
        l,
        "time"@,
        match c.shutdown_time {
            Some(t) => time_text(t),
            None => spec_status_label(l, "not_set"@),
        },
    ) + status_line(l, "now"@, now_date + " "@ + now_time) + status_line(
        l,
        "dry_run"@,
        bool_text(c.dry_run),
    ) + status_line(l, "shutdown_command"@, c.shutdown_command) + status_line(
        l,
        "language"@,
        language_name(l),
    ) + status_line(l, "warning_minutes"@, warnings_minutes_text(c.warning_seconds))
        + status_line(
        l,
        "cancelled_dates"@,
        if c.canceled_dates.len() == 0 {
            spec_status_label(l, "none"@)
        } else {
            join(c.canceled_dates, ", "@)
        },
    )
}

fn push_status_line(s: &mut String, language: Language, key: &str, value: &str)
    ensures
        final(s)@ == old(s)@ + status_line(language, key@, value@),
{
    s.append(status_label(language, key));
    s.append(": ");
    s.append(value);
    s.append("\n");
}

/// The status lines, from the configuration path to the canceled dates.
pub fn status_lines(config: &Config, config_path: &str, now: &LocalNow) -> (s: String)
    ensures
        s@ == spec_status_lines(config@, config_path@, now.date@, now.time@),
{
    let l = config.language;
    let mut s = String::new();
    push_status_line(&mut s, l, "config", config_path);
    push_status_line(&mut s, l, "enabled", bool_str(config.enabled));
    let time = match config.shutdown_time {
        Some(t) => format_time(t),
        None => String::from_str(status_label(l, "not_set")),
    };
    push_status_line(&mut s, l, "time", time.as_str());
    let mut nowtext = now.date.clone();
    nowtext.append(" ");
    nowtext.append(now.time.as_str());
    push_status_line(&mut s, l, "now", nowtext.as_str());
    push_status_line(&mut s, l, "dry_run", bool_str(config.dry_run));
    push_status_line(&mut s, l, "shutdown_command", config.shutdown_command.as_str());
    push_status_line(&mut s, l, "language", format_language(l));
    let w = warnings_minutes(&config.warning_seconds);
    push_status_line(&mut s, l, "warning_minutes", w.as_str());
    let dates = if config.canceled_dates.len() == 0 {
        String::from_str(status_label(l, "none"))
    } else {
        join_dates(&config.canceled_dates)
    };
    push_status_line(&mut s, l, "cancelled_dates", dates.as_str());
    assert(s@ =~= spec_status_lines(config@, config_path@, now.date@, now.time@));
    s
}

/// The warning offsets as the status shows them.
pub fn warnings_minutes(ws: &Vec<i64>) -> (r: String)
    ensures
        r@ == warnings_minutes_text(ws@),
{
    let ghost xs = ws@.map_values(|w: i64| minute_text(w as int));
    let mut s = String::new();
    let mut i: usize = 0;
    assert(xs.take(0) =~= Seq::<Seq<char>>::empty());
    while i < ws.len()
        invariant
            xs == ws@.map_values(|w: i64| minute_text(w as int)),
            i <= xs.len(),
            s@ == join(xs.take(i as int), ","@),
        decreases xs.len() - i,
    {
        proof {
            crate::text::lemma_join_push(xs.take(i as int), ","@, xs[i as int]);
            assert(xs.take(i + 1) =~= xs.take(i as int).push(xs[i as int]));
        }
        if i > 0 {
            s.append(",");
        }
        let w = ws[i];
        let ghost before = s@;
        if w % 60 == 0 {
            push_int(&mut s, w / 60);
        } else {
            push_int(&mut s, w);
            s.append("s");
        }
        assert(s@ =~= join(xs.take(i + 1), ","@));
        i = i + 1;
    }
    assert(xs.take(xs.len() as int) =~= xs);
    s
}

/// The status line of the next poweroff: its date and time, or `none`.
pub open spec fn spec_status_next_line(c: ConfigModel, next: Option<Seq<char>>) -> Seq<char> {
    match next {
        Some(d) => status_line(
            c.language,
            "next_shutdown"@,
            d + " "@ + time_text(c.shutdown_time->Some_0),
        ),
        None => status_line(c.language, "next_shutdown"@, spec_status_label(c.language, "none"@)),
    }
}

/// The status line of the next poweroff.
pub fn status_next_line(config: &Config, next: &Option<String>) -> (s: String)
    requires
        next is Some ==> config.shutdown_time is Some,
    ensures
        s@ == spec_status_next_line(
            config@,
            match next {
                Some(d) => Some(d@),
                None => None,
            },
        ),
{
    let mut s = String::new();
    match next {
        Some(d) => {
            let mut v = d.clone();
            v.append(" ");
            let t = match config.shutdown_time {
                Some(t) => t,
                None => {
                    return s;
                },
            };
            let ts = format_time(t);
            v.append(ts.as_str());
            push_status_line(&mut s, config.language, "next_shutdown", v.as_str());
        },
        None => {
            push_status_line(
                &mut s,
                config.language,
                "next_shutdown",
                status_label(config.language, "none"),
            );
        },
    }
    s
}

// ---------------------------------------------------------------------------
// Laws of cancel and resume
// ---------------------------------------------------------------------------

/// After `cancel`, exactly the given dates were added to the canceled
/// dates; after `resume`, exactly the given dates were taken out. Both keep
/// the canceled dates in order.
pub proof fn lemma_apply_dates_effect(c: ConfigModel, dates: Seq<Seq<char>>)
    requires
        c.wf(),
    ensures
        forall|y: Seq<char>| #[trigger]
            insert_all(c.canceled_dates, dates).contains(y) <==> (c.canceled_dates.contains(y)
                || dates.contains(y)),
        forall|y: Seq<char>| #[trigger]
            remove_all(c.canceled_dates, dates).contains(y) <==> (c.canceled_dates.contains(y)
                && !dates.contains(y)),
        sorted(insert_all(c.canceled_dates, dates)),
        sorted(remove_all(c.canceled_dates, dates)),
{
    crate::dateset::lemma_insert_all(c.canceled_dates, dates);
    crate::dateset::lemma_remove_all(c.canceled_dates, dates);
}

proof fn lemma_date_range_each(from: Seq<char>, count: int, k: nat)
    requires
        k <= count,
        forall|j: int| k <= j < count ==> (#[trigger] spec_add_days(from, j)) is Ok,
    ensures
        date_range(from, count, k) is Ok,
        date_range(from, count, k)->Ok_0.len() == count - k,
        forall|j: int|
            0 <= j < count - k ==> date_range(from, count, k)->Ok_0[j] == spec_add_days(
                from,
                k + j,
            )->Ok_0,
    decreases count - k,
{
    if k < count {
        lemma_date_range_each(from, count, k + 1);
        assert(spec_add_days(from, k as int) is Ok);
        let rest = date_range(from, count, k + 1)->Ok_0;
        let d = spec_add_days(from, k as int)->Ok_0;
        assert forall|j: int| 0 <= j < count - k implies (seq![d] + rest)[j] == spec_add_days(
            from,
            k + j,
        )->Ok_0 by {
            if j > 0 {
                assert((seq![d] + rest)[j] == rest[j - 1]);
            }
        }
    }
}

/// Without explicit dates, `cancel` and `resume` act on `--days` dates (one
/// by default) in a row: the `j`-th is the start date plus `j` days, where
/// the start is `--from` or else the default start date.
pub proof fn lemma_cancel_dates_in_a_row(
    req: CancelRequestModel,
    c: ConfigModel,
    now_epoch: int,
    now_date: Seq<char>,
    target: Result<int, Seq<char>>,
    start: Seq<char>,
)
    requires
        req.dates.len() == 0,
        match req.from {
            Some(f) => start == f,
            None => spec_default_action_start_date(c, now_epoch, now_date, target)
                == Ok::<Seq<char>, Seq<char>>(start),
        },
        forall|j: int|
            0 <= j < (match req.days {
                Some(n) => n,
                None => 1,
            }) ==> (#[trigger] spec_add_days(start, j)) is Ok,
    ensures
        ({
            let count = match req.days {
                Some(n) => n,
                None => 1,
            };
            &&& spec_cancel_dates(req, c, now_epoch, now_date, target) is Ok
            &&& spec_cancel_dates(req, c, now_epoch, now_date, target)->Ok_0.len() == if count > 0 {
                count
            } else {
                0
            }
            &&& forall|j: int|
                0 <= j < count ==> spec_cancel_dates(req, c, now_epoch, now_date, target)->Ok_0[j]
                    == spec_add_days(start, j)->Ok_0
        }),
{
    let count = match req.days {
        Some(n) => n,
        None => 1,
    };
    if count > 0 {
        lemma_date_range_each(start, count, 0);
    }
}

/// Explicit dates are acted on as given, unless `--days` or `--from` come
/// with them, which is refused.
pub proof fn lemma_cancel_explicit_dates(
    req: CancelRequestModel,
    c: ConfigModel,
    now_epoch: int,
    now_date: Seq<char>,
    target: Result<int, Seq<char>>,
)
    requires
        req.dates.len() > 0,
    ensures
        spec_cancel_dates(req, c, now_epoch, now_date, target) == if req.days is Some
            || req.from is Some {
            Err::<Seq<Seq<char>>, Seq<char>>(
                "use explicit dates, or use --days/--from; do not combine them"@,
            )
        } else {
            Ok(req.dates)
        },
{
}

} // verus!
