//! The decisions of the long-running daemon. Each round the caller reads the
//! configuration and the clock, computes the epoch of today's poweroff, and
//! asks `daemon_step` what to do: sleep, report an error, broadcast a
//! warning, or power off. The step remembers which warnings and poweroffs
//! went out, so that none goes out twice for a date.
use vstd::prelude::*;
use crate::calendar::cat;
use crate::config::{format_time, time_text, Config, ConfigModel};
use crate::dateset::{contains_str, lemma_push_to_set, strs};
use crate::messages::{
    message_poweroff_now, message_poweroff_warning, spec_message_poweroff_now,
    spec_message_poweroff_warning,
};
use crate::schedule::{
    epoch_view, next_warning_threshold, sent_contains, sent_view, sleep_interval, spec_sleep_interval,
    spec_next_warning_threshold, LocalNow,
};
use crate::text::{string_of, views, words, words_chars, chars_of};

verus! {

/// What the daemon remembers between rounds.
pub struct DaemonState {
    /// The (date, threshold) pairs whose warning went out.
    pub sent: Vec<(String, i64)>,
    /// The dates whose poweroff was started.
    pub shutdown_sent_for: Vec<String>,
}

pub struct DaemonStateModel {
    pub sent: Set<(Seq<char>, i64)>,
    pub shutdown_sent_for: Set<Seq<char>>,
}

impl View for DaemonState {
    type V = DaemonStateModel;

    open spec fn view(&self) -> DaemonStateModel {
        DaemonStateModel {
            sent: sent_view(self.sent@),
            shutdown_sent_for: strs(self.shutdown_sent_for@).to_set(),
        }
    }
}

impl DaemonState {
    /// Nothing sent yet.
    pub fn new() -> (s: DaemonState)
        ensures
            s@.sent == Set::<(Seq<char>, i64)>::empty(),
            s@.shutdown_sent_for == Set::<Seq<char>>::empty(),
    {
        let s = DaemonState { sent: Vec::new(), shutdown_sent_for: Vec::new() };
        assert(s@.sent =~= Set::<(Seq<char>, i64)>::empty());
        assert(s@.shutdown_sent_for =~= Set::<Seq<char>>::empty());
        s
    }
}

/// What the daemon does in one round.
pub enum DaemonAction {
    /// Sleep for the given number of seconds.
    Sleep(u64),
    /// Write the error to standard error, then sleep.
    Report { error: String, seconds: u64 },
    /// Broadcast the message, run the poweroff, then sleep 60 seconds.
    PowerOff { message: String },
    /// Broadcast the warning, then sleep.
    Warn { message: String, seconds: u64 },
}

/// The abstract value of a `DaemonAction`.
pub enum Step {
    Sleep(u64),
    Report(Seq<char>, u64),
    PowerOff(Seq<char>),
    Warn(Seq<char>, u64),
}

impl View for DaemonAction {
    type V = Step;

    open spec fn view(&self) -> Step {
        match self {
            DaemonAction::Sleep(s) => Step::Sleep(*s),
            DaemonAction::Report { error, seconds } => Step::Report(error@, *seconds),
            DaemonAction::PowerOff { message } => Step::PowerOff(message@),
            DaemonAction::Warn { message, seconds } => Step::Warn(message@, *seconds),
        }
    }
}

/// The pairs (date, w) for every warning threshold w of at least `th`.
pub open spec fn marked(date: Seq<char>, warnings: Seq<i64>, th: i64) -> Set<(Seq<char>, i64)> {
    Set::new(|p: (Seq<char>, i64)| p.0 == date && warnings.contains(p.1) && p.1 >= th)
}

/// The configuration as read, or the error of reading it.
pub open spec fn config_view(r: Result<Config, String>) -> Result<ConfigModel, Seq<char>> {
    match r {
        Ok(c) => Ok(c@),
        Err(e) => Err(e@),
    }
}

/// The present moment (epoch and date) as read, or the error of reading it.
pub open spec fn now_view(r: Result<LocalNow, String>) -> Result<(int, Seq<char>), Seq<char>> {
    match r {
        Ok(n) => Ok((n.epoch as int, n.date@)),
        Err(e) => Err(e@),
    }
}

/// The arithmetic of a round stays within `i64`: the poweroff epoch plus a
/// minute, and the seconds remaining until it.
pub open spec fn daemon_inputs_fit(
    config: Result<ConfigModel, Seq<char>>,
    now: Result<(int, Seq<char>), Seq<char>>,
    target: Result<int, Seq<char>>,
) -> bool {
    match (config, now, target) {
        (Ok(c), Ok((epoch, _)), Ok(t)) => c.enabled && c.shutdown_time is Some ==> {
            &&& t <= i64::MAX - 60
            &&& epoch >= t - i64::MAX
        },
        _ => true,
    }
}

/// Whether a round can be decided without overflow (see `daemon_inputs_fit`).
pub fn daemon_inputs_in_range(
    config: &Result<Config, String>,
    now: &Result<LocalNow, String>,
    target_epoch: &Result<i64, String>,
) -> (r: bool)
    ensures
        r == daemon_inputs_fit(config_view(*config), now_view(*now), epoch_view(*target_epoch)),
{
    match (config, now, target_epoch) {
        (Ok(c), Ok(n), Ok(t)) => {
            if c.enabled && c.shutdown_time.is_some() {
                *t <= i64::MAX - 60 && (*t < 0 || n.epoch >= *t - i64::MAX)
            } else {
                true
            }
        },
        _ => true,
    }
}

/// One round of the daemon: the new state and the action.
pub open spec fn spec_daemon_step(
    s: DaemonStateModel,
    config: Result<ConfigModel, Seq<char>>,
    now: Result<(int, Seq<char>), Seq<char>>,
    target: Result<int, Seq<char>>,
) -> (DaemonStateModel, Step) {
    match config {
        Err(e) => (s, Step::Report("failed to load config: "@ + e, 60)),
        Ok(c) => match now {
            Err(e) => (s, Step::Report("failed to read local time: "@ + e, 60)),
            Ok((epoch, date)) => if !c.enabled || c.shutdown_time is None {
                (s, Step::Sleep(60))
            } else {
                match target {
                    Err(e) => (s, Step::Report("failed to compute shutdown time: "@ + e, 60)),
                    Ok(t) => if epoch > t + 60 || c.canceled_dates.contains(date) {
                        (s, Step::Sleep(60))
                    } else {
                        let remaining = t - epoch;
                        let time = time_text(c.shutdown_time->Some_0);
                        if remaining <= 0 {
                            if s.shutdown_sent_for.contains(date) {
                                (s, Step::Sleep(60))
                            } else {
                                (
                                    DaemonStateModel {
                                        shutdown_sent_for: s.shutdown_sent_for.insert(date),
                                        ..s
                                    },
                                    Step::PowerOff(spec_message_poweroff_now(c.language, date, time)),
                                )
                            }
                        } else {
                            match spec_next_warning_threshold(
                                c.warning_seconds,
                                remaining,
                                s.sent,
                                date,
                            ) {
                                None => (s, Step::Sleep(spec_sleep_interval(remaining))),
                                Some(th) => (
                                    DaemonStateModel {
                                        sent: s.sent.union(marked(date, c.warning_seconds, th)),
                                        ..s
                                    },
                                    Step::Warn(
                                        spec_message_poweroff_warning(
                                            c.language,
                                            remaining,
                                            date,
                                            time,
                                        ),
                                        spec_sleep_interval(remaining),
                                    ),
                                ),
                            }
                        }
                    },
                }
            },
        },
    }
}

/// Marks every threshold of at least `th` as warned about on `date`.
fn mark_sent(sent: &mut Vec<(String, i64)>, date: &String, warnings: &Vec<i64>, th: i64)
    ensures
        sent_view(final(sent)@) == sent_view(old(sent)@).union(marked(date@, warnings@, th)),
{
    let ghost ws = warnings@;
    let ghost start = sent_view(sent@);
    let mut i: usize = 0;
    while i < warnings.len()
        invariant
            ws == warnings@,
            i <= ws.len(),
            sent_view(sent@) == start.union(
                Set::new(
                    |p: (Seq<char>, i64)|
                        p.0 == date@ && exists|k: int| 0 <= k < i && ws[k] == p.1 && p.1 >= th,
                ),
            ),
        decreases ws.len() - i,
    {
        let w = warnings[i];
        let ghost before = sent@;
        if w >= th && !sent_contains(sent, date.as_str(), w) {
            sent.push((date.clone(), w));
            assert(sent_view(sent@) =~= sent_view(before).insert((date@, w))) by {
                assert forall|p: (Seq<char>, i64)| sent_view(sent@).contains(p) implies sent_view(
                    before,
                ).insert((date@, w)).contains(p) by {
                    let k = choose|k: int|
                        0 <= k < sent@.len() && sent@[k].0@ == p.0 && sent@[k].1 == p.1;
                    if k < before.len() {
                        assert(before[k] == sent@[k]);
                    }
                }
                assert forall|p: (Seq<char>, i64)| sent_view(before).contains(p) implies sent_view(
                    sent@,
                ).contains(p) by {
                    let k = choose|k: int|
                        0 <= k < before.len() && before[k].0@ == p.0 && before[k].1 == p.1;
                    assert(sent@[k] == before[k]);
                }
                assert(sent@[before.len() as int].0@ == date@);
            }
        }
        assert(sent_view(sent@) =~= start.union(
            Set::new(
                |p: (Seq<char>, i64)|
                    p.0 == date@ && exists|k: int| 0 <= k < i + 1 && ws[k] == p.1 && p.1 >= th,
            ),
        )) by {
            assert forall|p: (Seq<char>, i64)|
                p.0 == date@ && (exists|k: int| 0 <= k < i + 1 && ws[k] == p.1 && p.1 >= th)
                    implies sent_view(sent@).contains(p) by {
                let k = choose|k: int| 0 <= k < i + 1 && ws[k] == p.1 && p.1 >= th;
                if k == i {
                    assert(p == (date@, w));
                }
            }
        }
        i = i + 1;
    }
    assert(sent_view(sent@) =~= sent_view(old(sent)@).union(marked(date@, ws, th))) by {
        assert forall|p: (Seq<char>, i64)| marked(date@, ws, th).contains(p) implies (exists|k: int|
            0 <= k < ws.len() && ws[k] == p.1 && p.1 >= th) by {
            let k = choose|k: int| 0 <= k < ws.len() && ws[k] == p.1;
        }
    }
}

/// Decides one round of the daemon. `target_epoch` is the epoch of the
/// poweroff time on the current date (read only when the schedule is
/// enabled and has a time), or the error of computing it.
#[verifier::rlimit(40)]
pub fn daemon_step(
    state: &mut DaemonState,
    config: &Result<Config, String>,
    now: &Result<LocalNow, String>,
    target_epoch: &Result<i64, String>,
) -> (action: DaemonAction)
    requires
        daemon_inputs_fit(config_view(*config), now_view(*now), epoch_view(*target_epoch)),
    ensures
        (final(state)@, action@) == spec_daemon_step(
            old(state)@,
            config_view(*config),
            now_view(*now),
            epoch_view(*target_epoch),
        ),
{
    let c = match config {
        Err(e) => {
            return DaemonAction::Report { error: cat("failed to load config: ", e.as_str()), seconds: 60 };
        },
        Ok(c) => c,
    };
    let n = match now {
        Err(e) => {
            return DaemonAction::Report {
                error: cat("failed to read local time: ", e.as_str()),
                seconds: 60,
            };
        },
        Ok(n) => n,
    };
    let time = match c.shutdown_time {
        Some(t) => t,
        None => {
            return DaemonAction::Sleep(60);
        },
    };
    if !c.enabled {
        return DaemonAction::Sleep(60);
    }
    let t = match target_epoch {
        Err(e) => {
            return DaemonAction::Report {
                error: cat("failed to compute shutdown time: ", e.as_str()),
                seconds: 60,
            };
        },
        Ok(t) => *t,
    };
    if n.epoch > t + 60 || contains_str(&c.canceled_dates, n.date.as_str()) {
        return DaemonAction::Sleep(60);
    }
    let remaining = t - n.epoch;
    if remaining <= 0 {
        if contains_str(&state.shutdown_sent_for, n.date.as_str()) {
            return DaemonAction::Sleep(60);
        }
        let ghost before = state.shutdown_sent_for@;
        state.shutdown_sent_for.push(n.date.clone());
        assert(strs(state.shutdown_sent_for@) =~= strs(before).push(n.date@));
        proof {
            lemma_push_to_set(strs(before), n.date@);
        }
        let message = message_poweroff_now(c.language, n.date.as_str(), format_time(time));
        return DaemonAction::PowerOff { message };
    }
    match next_warning_threshold(&c.warning_seconds, remaining, &state.sent, n.date.as_str()) {
        None => DaemonAction::Sleep(sleep_interval(remaining)),
        Some(th) => {
            let message = message_poweroff_warning(
                c.language,
                remaining,
                n.date.as_str(),
                format_time(time),
            );
            mark_sent(&mut state.sent, &n.date, &c.warning_seconds, th);
            DaemonAction::Warn { message, seconds: sleep_interval(remaining) }
        },
    }
}

// ---------------------------------------------------------------------------
// Running the poweroff
// ---------------------------------------------------------------------------

/// How the poweroff is carried out.
pub enum ShutdownPlan {
    /// Dry run: print the message and run nothing.
    DryRun(String),
    /// Run `program` with `args`.
    Run { program: String, args: Vec<String> },
}

/// How the configured poweroff is carried out: in a dry run the command is
/// only reported; otherwise its first whitespace-separated word is the
/// program and the rest are its arguments. An empty command is an error.
pub fn shutdown_plan(config: &Config) -> (r: Result<ShutdownPlan, String>)
    ensures
        match r {
            Ok(ShutdownPlan::DryRun(m)) => config.dry_run && m@
                == "dry_run=true, skipped shutdown command: "@ + config.shutdown_command@,
            Ok(ShutdownPlan::Run { program, args }) => !config.dry_run && words(
                config.shutdown_command@,
            ) == seq![program@] + strs(args@),
            Err(e) => !config.dry_run && words(config.shutdown_command@).len() == 0 && e@
                == "shutdown_command is empty"@,
        },
{
    if config.dry_run {
        return Ok(
            ShutdownPlan::DryRun(
                cat("dry_run=true, skipped shutdown command: ", config.shutdown_command.as_str()),
            ),
        );
    }
    let v = chars_of(config.shutdown_command.as_str());
    let ws = words_chars(v.as_slice());
    if ws.len() == 0 {
        return Err(String::from_str("shutdown_command is empty"));
    }
    let program = string_of(ws[0].as_slice());
    let mut args: Vec<String> = Vec::new();
    let mut i: usize = 1;
    while i < ws.len()
        invariant
            1 <= i <= ws@.len(),
            strs(args@) == views(ws@).subrange(1, i as int),
        decreases ws@.len() - i,
    {
        let a = string_of(ws[i].as_slice());
        let ghost before = strs(args@);
        let ghost av = a@;
        args.push(a);
        assert(strs(args@) =~= before.push(av));
        assert(views(ws@).subrange(1, i + 1) =~= views(ws@).subrange(1, i as int).push(av));
        i = i + 1;
    }
    assert(views(ws@) =~= seq![program@] + views(ws@).subrange(1, ws@.len() as int));
    Ok(ShutdownPlan::Run { program, args })
}

// ---------------------------------------------------------------------------
// Laws of the daemon
// ---------------------------------------------------------------------------

/// A poweroff starts at most once for a date: it starts only for a date not
/// yet in the record, the round records it, and a round whose date is
/// already recorded never starts one.
pub proof fn lemma_poweroff_once(
    s: DaemonStateModel,
    config: Result<ConfigModel, Seq<char>>,
    epoch: int,
    date: Seq<char>,
    target: Result<int, Seq<char>>,
)
    ensures
        ({
            let (s2, step) = spec_daemon_step(s, config, Ok((epoch, date)), target);
            &&& step is PowerOff ==> !s.shutdown_sent_for.contains(date)
                && s2.shutdown_sent_for.contains(date)
            &&& s.shutdown_sent_for.contains(date) ==> !(step is PowerOff)
        }),
{
}

/// Two rounds on the same date never both start the poweroff.
pub proof fn lemma_poweroff_not_twice(
    s: DaemonStateModel,
    config1: Result<ConfigModel, Seq<char>>,
    epoch1: int,
    target1: Result<int, Seq<char>>,
    config2: Result<ConfigModel, Seq<char>>,
    epoch2: int,
    target2: Result<int, Seq<char>>,
    date: Seq<char>,
)
    ensures
        ({
            let (s1, step1) = spec_daemon_step(s, config1, Ok((epoch1, date)), target1);
            let (s2, step2) = spec_daemon_step(s1, config2, Ok((epoch2, date)), target2);
            step1 is PowerOff ==> !(step2 is PowerOff)
        }),
{
}

/// What the daemon has sent only grows.
pub proof fn lemma_record_grows(
    s: DaemonStateModel,
    config: Result<ConfigModel, Seq<char>>,
    now: Result<(int, Seq<char>), Seq<char>>,
    target: Result<int, Seq<char>>,
)
    ensures
        ({
            let (s2, step) = spec_daemon_step(s, config, now, target);
            &&& s.sent.subset_of(s2.sent)
            &&& s.shutdown_sent_for.subset_of(s2.shutdown_sent_for)
        }),
{
}

/// The daemon broadcasts and powers off only on an enabled schedule with a
/// time, on a date that is not canceled, no more than a minute after the
/// poweroff time; it powers off only once that time has come.
pub proof fn lemma_acts_only_when_due(
    s: DaemonStateModel,
    c: ConfigModel,
    epoch: int,
    date: Seq<char>,
    t: int,
)
    ensures
        ({
            let (s2, step) = spec_daemon_step(s, Ok(c), Ok((epoch, date)), Ok(t));
            (step is PowerOff || step is Warn) ==> {
                &&& c.enabled
                &&& c.shutdown_time is Some
                &&& !c.canceled_dates.contains(date)
                &&& epoch <= t + 60
                &&& (step is PowerOff ==> t <= epoch)
                &&& (step is Warn ==> epoch < t)
            }
        }),
{
}

/// A warning goes out for the smallest due threshold not yet warned about,
/// and afterwards that threshold and every larger one count as warned about
/// for the date, so it does not go out again.
#[verifier::rlimit(50)]
pub proof fn lemma_warning_once(
    s: DaemonStateModel,
    c: ConfigModel,
    epoch: int,
    date: Seq<char>,
    t: int,
)
    ensures
        ({
            let (s2, step) = spec_daemon_step(s, Ok(c), Ok((epoch, date)), Ok(t));
            step is Warn ==> {
                let th = spec_next_warning_threshold(c.warning_seconds, t - epoch, s.sent, date)->Some_0;
                &&& c.warning_seconds.contains(th)
                &&& t - epoch <= th
                &&& !s.sent.contains((date, th))
                &&& forall|w: i64|
                    c.warning_seconds.contains(w) && w >= th ==> s2.sent.contains((date, w))
                &&& spec_next_warning_threshold(c.warning_seconds, t - epoch, s2.sent, date) != Some(th)
            }
        }),
{
    let r = t - epoch;
    if c.enabled && c.shutdown_time is Some && !(epoch > t + 60 || c.canceled_dates.contains(date))
        && r > 0 {
        match spec_next_warning_threshold(c.warning_seconds, r, s.sent, date) {
            Some(th) => {
                crate::schedule::lemma_next_warning_threshold(c.warning_seconds, r, s.sent, date);
                let s2 = DaemonStateModel {
                    sent: s.sent.union(marked(date, c.warning_seconds, th)),
                    ..s
                };
                assert(exists|w: i64| crate::schedule::eligible(c.warning_seconds, r, s.sent, date, w));
                assert(crate::schedule::eligible(c.warning_seconds, r, s.sent, date, th));
                assert(marked(date, c.warning_seconds, th).contains((date, th)));
                assert(!crate::schedule::eligible(c.warning_seconds, r, s2.sent, date, th));
                crate::schedule::lemma_next_warning_threshold(c.warning_seconds, r, s2.sent, date);
                assert forall|w: i64| c.warning_seconds.contains(w) && w >= th implies s2.sent.contains(
                    (date, w),
                ) by {
                    assert(marked(date, c.warning_seconds, th).contains((date, w)));
                }
                let step = Step::Warn(
                    spec_message_poweroff_warning(c.language, r, date, time_text(c.shutdown_time->Some_0)),
                    spec_sleep_interval(r),
                );
                assert(spec_daemon_step(s, Ok(c), Ok((epoch, date)), Ok(t)) == (s2, step));
            },
            None => {},
        }
    }
}

/// A round on an enabled schedule with a time, on a date that is not
/// canceled and not yet powered off, at the poweroff time or in the minute
/// after it, powers off: it broadcasts the poweroff message, records the
/// date, and leaves the warnings record as it was.
pub proof fn lemma_powers_off_when_due(
    s: DaemonStateModel,
    c: ConfigModel,
    epoch: int,
    date: Seq<char>,
    t: int,
)
    requires
        c.enabled,
        c.shutdown_time is Some,
        !c.canceled_dates.contains(date),
        !s.shutdown_sent_for.contains(date),
        t <= epoch <= t + 60,
    ensures
        ({
            let (s2, step) = spec_daemon_step(s, Ok(c), Ok((epoch, date)), Ok(t));
            &&& step == Step::PowerOff(
                spec_message_poweroff_now(c.language, date, time_text(c.shutdown_time->Some_0)),
            )
            &&& s2.shutdown_sent_for == s.shutdown_sent_for.insert(date)
            &&& s2.sent == s.sent
        }),
{
}

/// A round on an enabled schedule with a time, on a date that is not
/// canceled, before the poweroff time, warns as soon as some threshold of at
/// least the remaining seconds has not been warned about on that date: it
/// broadcasts the remaining time and sleeps as `sleep_interval` says.
/// Where no such threshold is left, it only sleeps.
pub proof fn lemma_warns_when_due(
    s: DaemonStateModel,
    c: ConfigModel,
    epoch: int,
    date: Seq<char>,
    t: int,
)
    requires
        c.enabled,
        c.shutdown_time is Some,
        !c.canceled_dates.contains(date),
        epoch < t,
    ensures
        ({
            let (s2, step) = spec_daemon_step(s, Ok(c), Ok((epoch, date)), Ok(t));
            if exists|w: i64|
                c.warning_seconds.contains(w) && t - epoch <= w && !s.sent.contains((date, w)) {
                &&& step == Step::Warn(
                    spec_message_poweroff_warning(
                        c.language,
                        t - epoch,
                        date,
                        time_text(c.shutdown_time->Some_0),
                    ),
                    spec_sleep_interval(t - epoch),
                )
                &&& s2.shutdown_sent_for == s.shutdown_sent_for
            } else {
                step == Step::Sleep(spec_sleep_interval(t - epoch)) && s2 == s
            }
        }),
{
    let r = t - epoch;
    if exists|w: i64| c.warning_seconds.contains(w) && t - epoch <= w && !s.sent.contains((date, w)) {
        let w = choose|w: i64|
            c.warning_seconds.contains(w) && t - epoch <= w && !s.sent.contains((date, w));
        assert(crate::schedule::eligible(c.warning_seconds, r, s.sent, date, w));
        crate::schedule::lemma_next_warning_threshold(c.warning_seconds, r, s.sent, date);
    } else {
        assert(!exists|w: i64| crate::schedule::eligible(c.warning_seconds, r, s.sent, date, w));
    }
}

// ---------------------------------------------------------------------------
// Laws over a whole run of the daemon
// ---------------------------------------------------------------------------

/// What one round of the daemon reads: the configuration, the present
/// moment, and the epoch of the poweroff time on the present date (each
/// possibly an error). They may change from one round to the next.
pub struct RoundInputs {
    pub config: Result<ConfigModel, Seq<char>>,
    pub now: Result<(int, Seq<char>), Seq<char>>,
    pub target: Result<int, Seq<char>>,
}

/// The state after the first `k` rounds of a run that starts in `s0`.
pub open spec fn state_after(s0: DaemonStateModel, rounds: Seq<RoundInputs>, k: nat) -> DaemonStateModel
    decreases k,
{
    if k == 0 || k > rounds.len() {
        s0
    } else {
        let r = rounds[k - 1];
        spec_daemon_step(state_after(s0, rounds, (k - 1) as nat), r.config, r.now, r.target).0
    }
}

/// The action of round `i` of a run that starts in `s0`.
pub open spec fn step_at(s0: DaemonStateModel, rounds: Seq<RoundInputs>, i: nat) -> Step {
    let r = rounds[i as int];
    spec_daemon_step(state_after(s0, rounds, i), r.config, r.now, r.target).1
}

/// The date a round reads, where it reads one.
pub open spec fn round_date(r: RoundInputs) -> Option<Seq<char>> {
    match r.now {
        Ok((_, d)) => Some(d),
        Err(_) => None,
    }
}

/// The warning threshold that a round in state `s` picks, where it has one.
pub open spec fn round_threshold(s: DaemonStateModel, r: RoundInputs) -> Option<i64> {
    match (r.config, r.now, r.target) {
        (Ok(c), Ok((epoch, date)), Ok(t)) => spec_next_warning_threshold(
            c.warning_seconds,
            t - epoch,
            s.sent,
            date,
        ),
        _ => None,
    }
}

/// Over a run, the record of what was sent only grows.
pub proof fn lemma_run_record_grows(s0: DaemonStateModel, rounds: Seq<RoundInputs>, i: nat, j: nat)
    requires
        i <= j <= rounds.len(),
    ensures
        state_after(s0, rounds, i).sent.subset_of(state_after(s0, rounds, j).sent),
        state_after(s0, rounds, i).shutdown_sent_for.subset_of(
            state_after(s0, rounds, j).shutdown_sent_for,
        ),
    decreases j - i,
{
    if i < j {
        lemma_run_record_grows(s0, rounds, i, (j - 1) as nat);
        let r = rounds[j - 1];
        lemma_record_grows(state_after(s0, rounds, (j - 1) as nat), r.config, r.now, r.target);
    }
}

/// Over a whole run, whatever the configuration and clock read in each
/// round, the poweroff starts in at most one round per date.
pub proof fn lemma_run_poweroff_once(s0: DaemonStateModel, rounds: Seq<RoundInputs>, i: nat, j: nat)
    requires
        i < j < rounds.len(),
        round_date(rounds[i as int]) is Some,
        round_date(rounds[i as int]) == round_date(rounds[j as int]),
    ensures
        !(step_at(s0, rounds, i) is PowerOff && step_at(s0, rounds, j) is PowerOff),
{
    let ri = rounds[i as int];
    let rj = rounds[j as int];
    let date = round_date(ri)->Some_0;
    let (ei, di) = ri.now->Ok_0;
    let (ej, dj) = rj.now->Ok_0;
    let si = state_after(s0, rounds, i);
    let sj = state_after(s0, rounds, j);
    lemma_poweroff_once(si, ri.config, ei, di, ri.target);
    lemma_poweroff_once(sj, rj.config, ej, dj, rj.target);
    assert(state_after(s0, rounds, i + 1) == spec_daemon_step(si, ri.config, ri.now, ri.target).0);
    lemma_run_record_grows(s0, rounds, i + 1, j);
}

/// Over a whole run, a round powers off or warns only on an enabled schedule
/// with a time, on a date that is not canceled, no more than a minute after
/// the poweroff time; it powers off only once that time has come.
pub proof fn lemma_run_acts_only_when_due(s0: DaemonStateModel, rounds: Seq<RoundInputs>, i: nat)
    requires
        i < rounds.len(),
    ensures
        ({
            let r = rounds[i as int];
            let step = step_at(s0, rounds, i);
            (step is PowerOff || step is Warn) ==> {
                &&& r.config is Ok && r.now is Ok && r.target is Ok
                &&& r.config->Ok_0.enabled
                &&& r.config->Ok_0.shutdown_time is Some
                &&& !r.config->Ok_0.canceled_dates.contains(r.now->Ok_0.1)
                &&& r.now->Ok_0.0 <= r.target->Ok_0 + 60
                &&& (step is PowerOff ==> r.target->Ok_0 <= r.now->Ok_0.0)
                &&& (step is Warn ==> r.now->Ok_0.0 < r.target->Ok_0)
            }
        }),
{
    let r = rounds[i as int];
    let si = state_after(s0, rounds, i);
    match (r.config, r.now, r.target) {
        (Ok(c), Ok((epoch, date)), Ok(t)) => {
            lemma_acts_only_when_due(si, c, epoch, date, t);
        },
        _ => {},
    }
}

/// Over a whole run, a warning threshold of a date is warned about in at
/// most one round: a later round that warns on the same date picks another
/// threshold.
#[verifier::rlimit(50)]
pub proof fn lemma_run_warning_once(s0: DaemonStateModel, rounds: Seq<RoundInputs>, i: nat, j: nat)
    requires
        i < j < rounds.len(),
        round_date(rounds[i as int]) is Some,
        round_date(rounds[i as int]) == round_date(rounds[j as int]),
        step_at(s0, rounds, i) is Warn,
        step_at(s0, rounds, j) is Warn,
    ensures
        round_threshold(state_after(s0, rounds, i), rounds[i as int]) is Some,
        round_threshold(state_after(s0, rounds, j), rounds[j as int]) is Some,
        round_threshold(state_after(s0, rounds, i), rounds[i as int]) != round_threshold(
            state_after(s0, rounds, j),
            rounds[j as int],
        ),
{
    let ri = rounds[i as int];
    let rj = rounds[j as int];
    let si = state_after(s0, rounds, i);
    let sj = state_after(s0, rounds, j);
    assert(state_after(s0, rounds, i + 1) == spec_daemon_step(si, ri.config, ri.now, ri.target).0);
    lemma_run_record_grows(s0, rounds, i + 1, j);
    match (ri.config, ri.now, ri.target, rj.config, rj.now, rj.target) {
        (Ok(ci), Ok((ei, di)), Ok(ti), Ok(cj), Ok((ej, dj)), Ok(tj)) => {
            lemma_warning_once(si, ci, ei, di, ti);
            lemma_warning_once(sj, cj, ej, dj, tj);
            let thi = spec_next_warning_threshold(ci.warning_seconds, ti - ei, si.sent, di)->Some_0;
            assert(state_after(s0, rounds, i + 1).sent.contains((di, thi)));
            assert(sj.sent.contains((di, thi)));
        },
        _ => {},
    }
}

/// A date that the record gained during the first `k` rounds was recorded
/// by a round on that date that powered off.
proof fn lemma_recorded_by_poweroff(s0: DaemonStateModel, rounds: Seq<RoundInputs>, k: nat, date: Seq<char>)
    requires
        k <= rounds.len(),
        state_after(s0, rounds, k).shutdown_sent_for.contains(date),
        !s0.shutdown_sent_for.contains(date),
    ensures
        exists|j: nat|
            j < k && round_date(#[trigger] rounds[j as int]) == Some(date) && step_at(
                s0,
                rounds,
                j,
            ) is PowerOff,
    decreases k,
{
    if k == 0 {
    } else {
        let j = (k - 1) as nat;
        let prev = state_after(s0, rounds, j);
        if prev.shutdown_sent_for.contains(date) {
            lemma_recorded_by_poweroff(s0, rounds, j, date);
            let i = choose|i: nat|
                i < j && round_date(#[trigger] rounds[i as int]) == Some(date) && step_at(
                    s0,
                    rounds,
                    i,
                ) is PowerOff;
            assert(i < k);
        } else {
            let r = rounds[j as int];
            assert(state_after(s0, rounds, k) == spec_daemon_step(prev, r.config, r.now, r.target).0);
            assert(step_at(s0, rounds, j) is PowerOff);
            assert(round_date(rounds[j as int]) == Some(date));
        }
    }
}

/// Over a whole run, a date is powered off: once a round on that date is at
/// the poweroff time or in the minute after it, on an enabled schedule with
/// a time and with the date not canceled, that round or an earlier one on
/// the same date has powered off (unless the run started with the date
/// already recorded).
pub proof fn lemma_run_powers_off_when_due(s0: DaemonStateModel, rounds: Seq<RoundInputs>, i: nat)
    requires
        i < rounds.len(),
        rounds[i as int].config is Ok,
        rounds[i as int].now is Ok,
        rounds[i as int].target is Ok,
        rounds[i as int].config->Ok_0.enabled,
        rounds[i as int].config->Ok_0.shutdown_time is Some,
        !rounds[i as int].config->Ok_0.canceled_dates.contains(rounds[i as int].now->Ok_0.1),
        rounds[i as int].target->Ok_0 <= rounds[i as int].now->Ok_0.0 <= rounds[i as int].target->Ok_0 + 60,
        !s0.shutdown_sent_for.contains(rounds[i as int].now->Ok_0.1),
    ensures
        exists|j: nat|
            j <= i && round_date(#[trigger] rounds[j as int]) == round_date(rounds[i as int])
                && step_at(s0, rounds, j) is PowerOff,
{
    let r = rounds[i as int];
    let (epoch, date) = r.now->Ok_0;
    let si = state_after(s0, rounds, i);
    if si.shutdown_sent_for.contains(date) {
        lemma_recorded_by_poweroff(s0, rounds, i, date);
        let j = choose|j: nat|
            j < i && round_date(#[trigger] rounds[j as int]) == Some(date) && step_at(
                s0,
                rounds,
                j,
            ) is PowerOff;
        assert(j <= i);
    } else {
        lemma_powers_off_when_due(si, r.config->Ok_0, epoch, date, r.target->Ok_0);
        assert(step_at(s0, rounds, i) is PowerOff);
    }
}

} // verus!
