//! The schedule: the current local time, the date that cancel/resume start
//! from, the next date on which the machine powers off, and the warning
//! thresholds before the poweroff.
use vstd::prelude::*;
use crate::calendar::{add_days, spec_add_days};
use crate::config::{Config, ConfigModel};
use crate::dateset::{contains_str, strs};
use crate::text::{pad_int, push_padded_int};

verus! {

/// The local calendar time of a moment, as the C library breaks it down
/// (with the year and month counted the human way).
#[derive(Clone, Copy, Debug)]
pub struct LocalTime {
    pub year: i64,
    pub month: i64,
    pub day: i64,
    pub hour: i64,
    pub minute: i64,
    pub second: i64,
}

/// The present moment: seconds since the epoch, and the local date and time as text.
#[derive(Debug)]
pub struct LocalNow {
    pub epoch: i64,
    /// `YYYY-MM-DD`.
    pub date: String,
    /// `HH:MM:SS`.
    pub time: String,
}

/// The local date written `YYYY-MM-DD`.
pub open spec fn local_date_text(t: LocalTime) -> Seq<char> {
    pad_int(t.year as int, 4) + seq!['-'] + pad_int(t.month as int, 2) + seq!['-'] + pad_int(
        t.day as int,
        2,
    )
}

/// The local time written `HH:MM:SS`.
pub open spec fn local_time_text(t: LocalTime) -> Seq<char> {
    pad_int(t.hour as int, 2) + seq![':'] + pad_int(t.minute as int, 2) + seq![':'] + pad_int(
        t.second as int,
        2,
    )
}

/// The present moment from the clock reading and its local breakdown.
pub fn local_now(epoch: i64, t: LocalTime) -> (now: LocalNow)
    ensures
        now.epoch == epoch,
        now.date@ == local_date_text(t),
        now.time@ == local_time_text(t),
{
    let mut date = String::new();
    push_padded_int(&mut date, t.year, 4);
    date.push('-');
    push_padded_int(&mut date, t.month, 2);
    date.push('-');
    push_padded_int(&mut date, t.day, 2);
    let mut time = String::new();
    push_padded_int(&mut time, t.hour, 2);
    time.push(':');
    push_padded_int(&mut time, t.minute, 2);
    time.push(':');
    push_padded_int(&mut time, t.second, 2);
    assert(date@ =~= local_date_text(t));
    assert(time@ =~= local_time_text(t));
    LocalNow { epoch, date, time }
}

/// A computed epoch, or the error of computing it, by its text.
pub open spec fn epoch_view(r: Result<i64, String>) -> Result<int, Seq<char>> {
    match r {
        Ok(t) => Ok(t as int),
        Err(e) => Err(e@),
    }
}

/// The date that cancel and resume start from when no date is given: today
/// while today's poweroff is still ahead (or no time is set), else tomorrow.
/// `target` is the epoch of the poweroff time on `now_date`.
pub open spec fn spec_default_action_start_date(
    c: ConfigModel,
    now_epoch: int,
    now_date: Seq<char>,
    target: Result<int, Seq<char>>,
) -> Result<Seq<char>, Seq<char>> {
    match c.shutdown_time {
        None => Ok(now_date),
        Some(_) => match target {
            Err(e) => Err(e),
            Ok(t) => if now_epoch > t {
                spec_add_days(now_date, 1)
            } else {
                Ok(now_date)
            },
        },
    }
}

/// The date that cancel and resume start from when no date is given.
/// `target_epoch` is the epoch of the poweroff time on `now.date`, or the
/// error of computing it; it is read only when a poweroff time is set.
pub fn default_action_start_date(
    config: &Config,
    now: &LocalNow,
    target_epoch: &Result<i64, String>,
) -> (r: Result<String, String>)
    ensures
        match r {
            Ok(d) => spec_default_action_start_date(
                config@,
                now.epoch as int,
                now.date@,
                epoch_view(*target_epoch),
            ) == Ok::<Seq<char>, Seq<char>>(d@),
            Err(e) => spec_default_action_start_date(
                config@,
                now.epoch as int,
                now.date@,
                epoch_view(*target_epoch),
            ) == Err::<Seq<char>, Seq<char>>(e@),
        },
{
    match config.shutdown_time {
        None => Ok(now.date.clone()),
        Some(_) => match target_epoch {
            Err(e) => Err(e.clone()),
            Ok(t) => if now.epoch > *t {
                add_days(now.date.as_str(), 1)
            } else {
                Ok(now.date.clone())
            },
        },
    }
}

/// The first date from `offset` days after `now_date` on that the machine
/// powers off: today only while the poweroff time is at most a minute past,
/// and no canceled date; none within a year.
pub open spec fn next_from(
    c: ConfigModel,
    now_epoch: int,
    now_date: Seq<char>,
    target: Result<int, Seq<char>>,
    offset: nat,
) -> Result<Option<Seq<char>>, Seq<char>>
    decreases 366 - offset,
{
    if offset >= 366 {
        Ok(None)
    } else {
        match spec_add_days(now_date, offset as int) {
            Err(e) => Err(e),
            Ok(d) => {
                if offset == 0 && (match target {
                    Err(_) => true,
                    Ok(t) => now_epoch > t + 60,
                }) {
                    match target {
                        Err(e) => Err(e),
                        Ok(_) => next_from(c, now_epoch, now_date, target, offset + 1),
                    }
                } else if !c.canceled_dates.contains(d) {
                    Ok(Some(d))
                } else {
                    next_from(c, now_epoch, now_date, target, offset + 1)
                }
            },
        }
    }
}

/// The next date with a poweroff, if the schedule is enabled and has a time.
pub open spec fn spec_next_scheduled_date(
    c: ConfigModel,
    now_epoch: int,
    now_date: Seq<char>,
    target: Result<int, Seq<char>>,
) -> Result<Option<Seq<char>>, Seq<char>> {
    if !c.enabled || c.shutdown_time is None {
        Ok(None)
    } else {
        next_from(c, now_epoch, now_date, target, 0)
    }
}

/// The next date with a poweroff, within a year. `target_epoch` is the epoch
/// of the poweroff time on `now.date`, or the error of computing it; it is
/// read only when the schedule is enabled and has a time.
pub fn next_scheduled_date(config: &Config, now: &LocalNow, target_epoch: &Result<i64, String>) -> (r:
    Result<Option<String>, String>)
    requires
        config.enabled && config.shutdown_time is Some ==> match *target_epoch {
            Ok(t) => t <= i64::MAX - 60,
            Err(_) => true,
        },
    ensures
        match r {
            Ok(Some(d)) => spec_next_scheduled_date(
                config@,
                now.epoch as int,
                now.date@,
                epoch_view(*target_epoch),
            ) == Ok::<Option<Seq<char>>, Seq<char>>(Some(d@)),
            Ok(None) => spec_next_scheduled_date(
                config@,
                now.epoch as int,
                now.date@,
                epoch_view(*target_epoch),
            ) == Ok::<Option<Seq<char>>, Seq<char>>(None),
            Err(e) => spec_next_scheduled_date(
                config@,
                now.epoch as int,
                now.date@,
                epoch_view(*target_epoch),
            ) == Err::<Option<Seq<char>>, Seq<char>>(e@),
        },
{
    if !config.enabled || config.shutdown_time.is_none() {
        return Ok(None);
    }
    let ghost target = epoch_view(*target_epoch);
    let ghost c = config@;
    let mut offset: i64 = 0;
    while offset < 366
        invariant
            0 <= offset <= 366,
            config.enabled,
            config.shutdown_time is Some,
            target == epoch_view(*target_epoch),
            c == config@,
            match *target_epoch {
                Ok(t) => t <= i64::MAX - 60,
                Err(_) => true,
            },
            next_from(c, now.epoch as int, now.date@, target, 0) == next_from(
                c,
                now.epoch as int,
                now.date@,
                target,
                offset as nat,
            ),
        decreases 366 - offset,
    {
        let date = match add_days(now.date.as_str(), offset) {
            Ok(d) => d,
            Err(e) => return Err(e),
        };
        if offset == 0 {
            match target_epoch {
                Err(e) => return Err(e.clone()),
                Ok(t) => {
                    if now.epoch > *t + 60 {
                        offset = offset + 1;
                        continue ;
                    }
                },
            }
        }
        if !contains_str(&config.canceled_dates, date.as_str()) {
            return Ok(Some(date));
        }
        offset = offset + 1;
    }
    Ok(None)
}

/// How long the daemon sleeps with `remaining` seconds to go: 5 seconds in
/// the last minute, 15 in the last five minutes, 30 before that.
pub open spec fn spec_sleep_interval(remaining: int) -> u64 {
    if remaining <= 60 {
        5
    } else if remaining <= 300 {
        15
    } else {
        30
    }
}

pub fn sleep_interval(remaining: i64) -> (r: u64)
    ensures
        r == spec_sleep_interval(remaining as int),
{
    if remaining <= 60 {
        5
    } else if remaining <= 300 {
        15
    } else {
        30
    }
}

/// The (date, threshold) pairs for which a warning went out.
pub open spec fn sent_view(sent: Seq<(String, i64)>) -> Set<(Seq<char>, i64)> {
    Set::new(|p: (Seq<char>, i64)| exists|k: int| 0 <= k < sent.len() && sent[k].0@ == p.0 && sent[k].1 == p.1)
}

/// A threshold that is due (at least `remaining`) and not yet warned about on `date`.
pub open spec fn eligible(
    warnings: Seq<i64>,
    remaining: int,
    sent: Set<(Seq<char>, i64)>,
    date: Seq<char>,
    w: i64,
) -> bool {
    warnings.contains(w) && remaining <= w && !sent.contains((date, w))
}

/// The smallest eligible threshold, if there is one.
pub open spec fn spec_next_warning_threshold(
    warnings: Seq<i64>,
    remaining: int,
    sent: Set<(Seq<char>, i64)>,
    date: Seq<char>,
) -> Option<i64> {
    if exists|w: i64| eligible(warnings, remaining, sent, date, w) {
        Some(
            choose|w: i64|
                eligible(warnings, remaining, sent, date, w) && forall|v: i64|
                    eligible(warnings, remaining, sent, date, v) ==> w <= v,
        )
    } else {
        None
    }
}

/// Among finitely many candidates, one that qualifies is no larger than any other that qualifies.
proof fn lemma_least(s: Seq<i64>, p: spec_fn(i64) -> bool)
    requires
        exists|k: int| 0 <= k < s.len() && p(s[k]),
    ensures
        exists|k: int|
            0 <= k < s.len() && p(s[k]) && forall|j: int| 0 <= j < s.len() && p(s[j]) ==> s[k] <= s[j],
    decreases s.len(),
{
    let d = s.drop_last();
    let last = s.len() - 1;
    if exists|k: int| 0 <= k < d.len() && p(d[k]) {
        lemma_least(d, p);
        let k = choose|k: int|
            0 <= k < d.len() && p(d[k]) && forall|j: int| 0 <= j < d.len() && p(d[j]) ==> d[k] <= d[j];
        if p(s[last]) && s[last] < d[k] {
            assert forall|j: int| 0 <= j < s.len() && p(s[j]) implies s[last] <= s[j] by {
                if j < last {
                    assert(s[j] == d[j]);
                }
            }
            assert(0 <= last < s.len() && p(s[last]) && forall|j: int|
                0 <= j < s.len() && p(s[j]) ==> s[last] <= s[j]);
        } else {
            assert forall|j: int| 0 <= j < s.len() && p(s[j]) implies s[k] <= s[j] by {
                if j < last {
                    assert(s[j] == d[j]);
                }
            }
            assert(s[k] == d[k]);
            assert(0 <= k < s.len() && p(s[k]) && forall|j: int|
                0 <= j < s.len() && p(s[j]) ==> s[k] <= s[j]);
        }
    } else {
        let k0 = choose|k: int| 0 <= k < s.len() && p(s[k]);
        if k0 < last {
            assert(p(d[k0]));
        }
        assert forall|j: int| 0 <= j < s.len() && p(s[j]) implies s[last] <= s[j] by {
            if j < last {
                assert(p(d[j]));
            }
        }
        assert(0 <= last < s.len() && p(s[last]) && forall|j: int|
            0 <= j < s.len() && p(s[j]) ==> s[last] <= s[j]);
    }
}

/// When some threshold is eligible, the smallest eligible one is what
/// `spec_next_warning_threshold` gives.
pub proof fn lemma_next_warning_threshold(
    warnings: Seq<i64>,
    remaining: int,
    sent: Set<(Seq<char>, i64)>,
    date: Seq<char>,
)
    ensures
        match spec_next_warning_threshold(warnings, remaining, sent, date) {
            Some(w) => eligible(warnings, remaining, sent, date, w) && forall|v: i64|
                eligible(warnings, remaining, sent, date, v) ==> w <= v,
            None => forall|v: i64| !eligible(warnings, remaining, sent, date, v),
        },
{
    if exists|w: i64| eligible(warnings, remaining, sent, date, w) {
        let w0 = choose|w: i64| eligible(warnings, remaining, sent, date, w);
        let p = |v: i64| remaining <= v && !sent.contains((date, v));
        let k0 = choose|k: int| 0 <= k < warnings.len() && warnings[k] == w0;
        assert(p(warnings[k0]));
        lemma_least(warnings, p);
        let k = choose|k: int|
            0 <= k < warnings.len() && p(warnings[k]) && forall|j: int|
                0 <= j < warnings.len() && p(warnings[j]) ==> warnings[k] <= warnings[j];
        let m = warnings[k];
        assert(eligible(warnings, remaining, sent, date, m));
        assert forall|v: i64| eligible(warnings, remaining, sent, date, v) implies m <= v by {
            let j = choose|j: int| 0 <= j < warnings.len() && warnings[j] == v;
            assert(p(warnings[j]));
        }
    }
}

/// Whether a warning for `(date, w)` went out.
pub fn sent_contains(sent: &Vec<(String, i64)>, date: &str, w: i64) -> (r: bool)
    ensures
        r == sent_view(sent@).contains((date@, w)),
{
    let mut i: usize = 0;
    while i < sent.len()
        invariant
            i <= sent@.len(),
            forall|k: int| 0 <= k < i ==> !(sent@[k].0@ == date@ && sent@[k].1 == w),
        decreases sent@.len() - i,
    {
        if sent[i].1 == w && crate::text::str_eq(sent[i].0.as_str(), date) {
            assert(sent@[i as int].0@ == date@ && sent@[i as int].1 == w);
            return true;
        }
        i = i + 1;
    }
    false
}

/// The smallest warning threshold that is due with `remaining` seconds to
/// go and has not been warned about on `date`.
pub fn next_warning_threshold(
    warnings: &Vec<i64>,
    remaining: i64,
    sent: &Vec<(String, i64)>,
    date: &str,
) -> (r: Option<i64>)
    ensures
        r == spec_next_warning_threshold(warnings@, remaining as int, sent_view(sent@), date@),
{
    let ghost ws = warnings@;
    let ghost sv = sent_view(sent@);
    let mut best: Option<i64> = None;
    let mut i: usize = 0;
    while i < warnings.len()
        invariant
            ws == warnings@,
            sv == sent_view(sent@),
            i <= ws.len(),
            match best {
                Some(b) => eligible(ws, remaining as int, sv, date@, b) && forall|k: int|
                    0 <= k < i && eligible(ws, remaining as int, sv, date@, #[trigger] ws[k]) ==> b
                        <= ws[k],
                None => forall|k: int|
                    0 <= k < i ==> !eligible(ws, remaining as int, sv, date@, #[trigger] ws[k]),
            },
        decreases ws.len() - i,
    {
        let w = warnings[i];
        assert(ws.contains(w)) by {
            assert(ws[i as int] == w);
        }
        if remaining <= w && !sent_contains(sent, date, w) {
            match best {
                Some(b) => {
                    if w < b {
                        best = Some(w);
                    }
                },
                None => {
                    best = Some(w);
                },
            }
        }
        i = i + 1;
    }
    match best {
        Some(b) => {
            assert forall|v: i64| #[trigger] eligible(ws, remaining as int, sv, date@, v) implies b
                <= v by {
                let k = choose|k: int| 0 <= k < ws.len() && ws[k] == v;
                assert(eligible(ws, remaining as int, sv, date@, ws[k]));
            }
            let ghost c = choose|w: i64|
                eligible(ws, remaining as int, sv, date@, w) && forall|v: i64|
                    eligible(ws, remaining as int, sv, date@, v) ==> w <= v;
            assert(eligible(ws, remaining as int, sv, date@, c) && forall|v: i64|
                eligible(ws, remaining as int, sv, date@, v) ==> c <= v);
            assert(b <= c && c <= b);
        },
        None => {
            assert forall|v: i64| !#[trigger] eligible(ws, remaining as int, sv, date@, v) by {
                if eligible(ws, remaining as int, sv, date@, v) {
                    let k = choose|k: int| 0 <= k < ws.len() && ws[k] == v;
                    assert(eligible(ws, remaining as int, sv, date@, ws[k]));
                }
            }
        },
    }
    best
}

/// Every date from offset `offset` on that `next_from` gives is not canceled,
/// lies `k` days (less than a year) after the current date, and is today
/// only while the poweroff time is at most a minute past.
proof fn lemma_next_from(
    c: ConfigModel,
    now_epoch: int,
    now_date: Seq<char>,
    target: Result<int, Seq<char>>,
    offset: nat,
)
    ensures
        match next_from(c, now_epoch, now_date, target, offset) {
            Ok(Some(d)) => !c.canceled_dates.contains(d) && exists|k: int|
                offset <= k < 366 && spec_add_days(now_date, k) == Ok::<Seq<char>, Seq<char>>(d)
                    && (k == 0 ==> (match target {
                    Ok(t) => now_epoch <= t + 60,
                    Err(_) => false,
                })),
            _ => true,
        },
    decreases 366 - offset,
{
    if offset < 366 {
        lemma_next_from(c, now_epoch, now_date, target, offset + 1);
    }
}

/// The next poweroff date is never a canceled date; it is the current date
/// plus fewer than 366 days, and the current date only when the poweroff
/// time is at most a minute past.
pub proof fn lemma_next_scheduled_not_canceled(
    c: ConfigModel,
    now_epoch: int,
    now_date: Seq<char>,
    target: Result<int, Seq<char>>,
)
    ensures
        match spec_next_scheduled_date(c, now_epoch, now_date, target) {
            Ok(Some(d)) => c.enabled && c.shutdown_time is Some && !c.canceled_dates.contains(d)
                && exists|k: int|
                0 <= k < 366 && spec_add_days(now_date, k) == Ok::<Seq<char>, Seq<char>>(d) && (k
                    == 0 ==> (match target {
                    Ok(t) => now_epoch <= t + 60,
                    Err(_) => false,
                })),
            _ => true,
        },
{
    lemma_next_from(c, now_epoch, now_date, target, 0);
}

/// Whether the date `k` days after the current date can still have its
/// poweroff: any later date, and today while the poweroff time (epoch `t`)
/// is at most a minute past.
pub open spec fn still_ahead(now_epoch: int, t: int, k: int) -> bool {
    k > 0 || now_epoch <= t + 60
}

proof fn lemma_next_from_first(
    c: ConfigModel,
    now_epoch: int,
    now_date: Seq<char>,
    t: int,
    offset: nat,
    k: nat,
)
    requires
        offset <= k < 366,
        still_ahead(now_epoch, t, k as int),
        forall|j: int| offset <= j <= k ==> (#[trigger] spec_add_days(now_date, j)) is Ok,
        !c.canceled_dates.contains(spec_add_days(now_date, k as int)->Ok_0),
        forall|j: int|
            offset <= j < k && still_ahead(now_epoch, t, j) ==> c.canceled_dates.contains(
                (#[trigger] spec_add_days(now_date, j))->Ok_0,
            ),
    ensures
        next_from(c, now_epoch, now_date, Ok(t), offset) == Ok::<Option<Seq<char>>, Seq<char>>(
            Some(spec_add_days(now_date, k as int)->Ok_0),
        ),
    decreases k - offset,
{
    assert(spec_add_days(now_date, offset as int) is Ok);
    if offset < k {
        lemma_next_from_first(c, now_epoch, now_date, t, offset + 1, k);
        if still_ahead(now_epoch, t, offset as int) {
            assert(c.canceled_dates.contains(spec_add_days(now_date, offset as int)->Ok_0));
        }
    }
}

/// The next poweroff date is the first date, from today on and within a
/// year, that is still ahead and not canceled: where every date up to it
/// can be computed, that date is the answer, however many dates before it
/// are canceled.
pub proof fn lemma_next_scheduled_first(
    c: ConfigModel,
    now_epoch: int,
    now_date: Seq<char>,
    t: int,
    k: nat,
)
    requires
        c.enabled,
        c.shutdown_time is Some,
        k < 366,
        still_ahead(now_epoch, t, k as int),
        forall|j: int| 0 <= j <= k ==> (#[trigger] spec_add_days(now_date, j)) is Ok,
        !c.canceled_dates.contains(spec_add_days(now_date, k as int)->Ok_0),
        forall|j: int|
            0 <= j < k && still_ahead(now_epoch, t, j) ==> c.canceled_dates.contains(
                (#[trigger] spec_add_days(now_date, j))->Ok_0,
            ),
    ensures
        spec_next_scheduled_date(c, now_epoch, now_date, Ok(t)) == Ok::<Option<Seq<char>>, Seq<char>>(
            Some(spec_add_days(now_date, k as int)->Ok_0),
        ),
{
    lemma_next_from_first(c, now_epoch, now_date, t, 0, k);
}

proof fn lemma_next_from_none(
    c: ConfigModel,
    now_epoch: int,
    now_date: Seq<char>,
    t: int,
    offset: nat,
)
    requires
        next_from(c, now_epoch, now_date, Ok(t), offset) == Ok::<Option<Seq<char>>, Seq<char>>(None),
    ensures
        forall|k: int|
            offset <= k < 366 && still_ahead(now_epoch, t, k) ==> (#[trigger] spec_add_days(now_date, k)) is Ok
                && c.canceled_dates.contains(spec_add_days(now_date, k)->Ok_0),
    decreases 366 - offset,
{
    if offset < 366 {
        lemma_next_from_none(c, now_epoch, now_date, t, offset + 1);
    }
}

/// There is no next poweroff date on an enabled schedule with a time only
/// when every date of the year ahead that is still ahead is canceled.
pub proof fn lemma_next_scheduled_none(c: ConfigModel, now_epoch: int, now_date: Seq<char>, t: int)
    requires
        c.enabled,
        c.shutdown_time is Some,
        spec_next_scheduled_date(c, now_epoch, now_date, Ok(t)) == Ok::<Option<Seq<char>>, Seq<char>>(None),
    ensures
        forall|k: int|
            0 <= k < 366 && still_ahead(now_epoch, t, k) ==> (#[trigger] spec_add_days(now_date, k)) is Ok
                && c.canceled_dates.contains(spec_add_days(now_date, k)->Ok_0),
{
    lemma_next_from_none(c, now_epoch, now_date, t, 0);
}

/// A disabled schedule, or one without a time, has no next poweroff date.
pub proof fn lemma_next_scheduled_off(
    c: ConfigModel,
    now_epoch: int,
    now_date: Seq<char>,
    target: Result<int, Seq<char>>,
)
    requires
        !c.enabled || c.shutdown_time is None,
    ensures
        spec_next_scheduled_date(c, now_epoch, now_date, target) == Ok::<Option<Seq<char>>, Seq<char>>(None),
{
}

/// Where no date is given, cancel and resume start tomorrow once today's
/// poweroff time has passed, and today while it has not, whether or not the
/// schedule is enabled; without a poweroff time they start today.
pub proof fn lemma_default_start_date(
    c: ConfigModel,
    enabled: bool,
    now_epoch: int,
    now_date: Seq<char>,
    t: int,
)
    ensures
        spec_default_action_start_date(c, now_epoch, now_date, Ok(t))
            == spec_default_action_start_date(
            ConfigModel { enabled, ..c },
            now_epoch,
            now_date,
            Ok(t),
        ),
        c.shutdown_time is None ==> spec_default_action_start_date(c, now_epoch, now_date, Ok(t))
            == Ok::<Seq<char>, Seq<char>>(now_date),
        c.shutdown_time is Some && now_epoch > t ==> spec_default_action_start_date(
            c,
            now_epoch,
            now_date,
            Ok(t),
        ) == spec_add_days(now_date, 1),
        c.shutdown_time is Some && now_epoch <= t ==> spec_default_action_start_date(
            c,
            now_epoch,
            now_date,
            Ok(t),
        ) == Ok::<Seq<char>, Seq<char>>(now_date),
{
}

} // verus!
