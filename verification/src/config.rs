//! The settings of the scheduler and the parsers of their values:
//! booleans, languages, times of day, date lists and warning lists.
use vstd::prelude::*;
use crate::calendar::{cat, cat3, spec_parse_date};
use crate::dateset::{sorted, strs};
use crate::text::{
    chars_eq, chars_of, lemma_first_index, pad, parse_integer, parse_integer_chars, push_padded,
    split, split_chars, split_once, split_once_chars, string_of, trim, trim_chars, views,
};

verus! {

/// The language of messages and labels.
#[derive(Clone, Copy, Debug, PartialEq, Eq, Structural)]
pub enum Language {
    En,
    ZhCn,
}

/// A time of day, hours and minutes.
#[derive(Clone, Copy, Debug, PartialEq, Eq, Structural)]
pub struct TimeOfDay {
    pub hour: u32,
    pub minute: u32,
}

impl TimeOfDay {
    /// Hours `0..=23` and minutes `0..=59`, as `parse_time` accepts them.
    pub open spec fn valid(self) -> bool {
        self.hour <= 23 && self.minute <= 59
    }
}

/// The settings read from and written to the configuration file.
#[derive(Debug)]
pub struct Config {
    /// Whether the daily poweroff is active.
    pub enabled: bool,
    /// The time of the daily poweroff, if one was set.
    pub shutdown_time: Option<TimeOfDay>,
    /// Dates (as written) on which no poweroff happens, in increasing order.
    pub canceled_dates: Vec<String>,
    /// Seconds before the poweroff at which a warning goes out, largest first.
    pub warning_seconds: Vec<i64>,
    /// The command that powers the machine off.
    pub shutdown_command: String,
    /// Whether the poweroff command is only reported, not run.
    pub dry_run: bool,
    /// The language of messages.
    pub language: Language,
}

/// The abstract value of a `Config`.
pub struct ConfigModel {
    pub enabled: bool,
    pub shutdown_time: Option<TimeOfDay>,
    pub canceled_dates: Seq<Seq<char>>,
    pub warning_seconds: Seq<i64>,
    pub shutdown_command: Seq<char>,
    pub dry_run: bool,
    pub language: Language,
}

impl View for Config {
    type V = ConfigModel;

    open spec fn view(&self) -> ConfigModel {
        ConfigModel {
            enabled: self.enabled,
            shutdown_time: self.shutdown_time,
            canceled_dates: strs(self.canceled_dates@),
            warning_seconds: self.warning_seconds@,
            shutdown_command: self.shutdown_command@,
            dry_run: self.dry_run,
            language: self.language,
        }
    }
}

impl ConfigModel {
    /// The invariant of every configuration the library builds: canceled
    /// dates in increasing order without repetition, and a non-empty warning
    /// list in strictly decreasing order.
    pub open spec fn wf(self) -> bool {
        &&& sorted(self.canceled_dates)
        &&& strictly_desc(self.warning_seconds)
        &&& self.warning_seconds.len() > 0
    }
}

/// The default warning offsets, in seconds.
pub open spec fn default_warnings() -> Seq<i64> {
    seq![3600, 1800, 900, 600, 300, 180, 120, 60, 30, 10]
}

/// The configuration used where the file does not exist.
pub open spec fn default_model() -> ConfigModel {
    ConfigModel {
        enabled: true,
        shutdown_time: None,
        canceled_dates: seq![],
        warning_seconds: default_warnings(),
        shutdown_command: "systemctl poweroff"@,
        dry_run: false,
        language: Language::En,
    }
}

impl Config {
    /// The built-in defaults: enabled, no time, no canceled dates, the
    /// default warnings, `systemctl poweroff`, no dry run, English.
    pub fn default() -> (c: Config)
        ensures
            c@ == default_model(),
            c@.wf(),
    {
        let mut w: Vec<i64> = Vec::new();
        w.push(3600);
        w.push(1800);
        w.push(900);
        w.push(600);
        w.push(300);
        w.push(180);
        w.push(120);
        w.push(60);
        w.push(30);
        w.push(10);
        assert(w@ =~= default_warnings());
        let c = Config {
            enabled: true,
            shutdown_time: None,
            canceled_dates: Vec::new(),
            warning_seconds: w,
            shutdown_command: String::from_str("systemctl poweroff"),
            dry_run: false,
            language: Language::En,
        };
        assert(c@.canceled_dates =~= Seq::<Seq<char>>::empty());
        c
    }
}

// ---------------------------------------------------------------------------
// Booleans and languages
// ---------------------------------------------------------------------------

/// `true`, `yes`, `1`, `on` mean true; `false`, `no`, `0`, `off` mean false.
pub open spec fn spec_parse_bool(v: Seq<char>) -> Result<bool, Seq<char>> {
    if v == "true"@ || v == "yes"@ || v == "1"@ || v == "on"@ {
        Ok(true)
    } else if v == "false"@ || v == "no"@ || v == "0"@ || v == "off"@ {
        Ok(false)
    } else {
        Err("invalid boolean: "@ + v)
    }
}

/// A boolean as `Display` writes it.
pub open spec fn bool_text(b: bool) -> Seq<char> {
    if b {
        "true"@
    } else {
        "false"@
    }
}

pub fn parse_bool_chars(v: &[char]) -> (r: Result<bool, String>)
    ensures
        match r {
            Ok(b) => spec_parse_bool(v@) == Ok::<bool, Seq<char>>(b),
            Err(e) => spec_parse_bool(v@) == Err::<bool, Seq<char>>(e@),
        },
{
    if chars_eq(v, "true") || chars_eq(v, "yes") || chars_eq(v, "1") || chars_eq(v, "on") {
        Ok(true)
    } else if chars_eq(v, "false") || chars_eq(v, "no") || chars_eq(v, "0") || chars_eq(
        v,
        "off",
    ) {
        Ok(false)
    } else {
        let s = string_of(v);
        Err(cat("invalid boolean: ", s.as_str()))
    }
}

/// Parses a boolean setting.
pub fn parse_bool(value: &str) -> (r: Result<bool, String>)
    ensures
        match r {
            Ok(b) => spec_parse_bool(value@) == Ok::<bool, Seq<char>>(b),
            Err(e) => spec_parse_bool(value@) == Err::<bool, Seq<char>>(e@),
        },
{
    let v = chars_of(value);
    parse_bool_chars(v.as_slice())
}

/// `en` and `en-US` mean English; `zh-CN`, `zh_cn` and `zh` mean Chinese.
pub open spec fn spec_parse_language(v: Seq<char>) -> Result<Language, Seq<char>> {
    if v == "en"@ || v == "en-US"@ {
        Ok(Language::En)
    } else if v == "zh-CN"@ || v == "zh_cn"@ || v == "zh"@ {
        Ok(Language::ZhCn)
    } else {
        Err("invalid language: "@ + v + "; expected en or zh-CN"@)
    }
}

/// The name a language is written with.
pub open spec fn language_name(l: Language) -> Seq<char> {
    match l {
        Language::En => "en"@,
        Language::ZhCn => "zh-CN"@,
    }
}

pub fn parse_language_chars(v: &[char]) -> (r: Result<Language, String>)
    ensures
        match r {
            Ok(l) => spec_parse_language(v@) == Ok::<Language, Seq<char>>(l),
            Err(e) => spec_parse_language(v@) == Err::<Language, Seq<char>>(e@),
        },
{
    if chars_eq(v, "en") || chars_eq(v, "en-US") {
        Ok(Language::En)
    } else if chars_eq(v, "zh-CN") || chars_eq(v, "zh_cn") || chars_eq(v, "zh") {
        Ok(Language::ZhCn)
    } else {
        let s = string_of(v);
        Err(cat3("invalid language: ", s.as_str(), "; expected en or zh-CN"))
    }
}

/// Parses a language name.
pub fn parse_language(value: &str) -> (r: Result<Language, String>)
    ensures
        match r {
            Ok(l) => spec_parse_language(value@) == Ok::<Language, Seq<char>>(l),
            Err(e) => spec_parse_language(value@) == Err::<Language, Seq<char>>(e@),
        },
{
    let v = chars_of(value);
    parse_language_chars(v.as_slice())
}

/// The name a language is written with: `en` or `zh-CN`.
pub fn format_language(language: Language) -> (r: &'static str)
    ensures
        r@ == language_name(language),
{
    match language {
        Language::En => "en",
        Language::ZhCn => "zh-CN",
    }
}

// ---------------------------------------------------------------------------
// Times of day
// ---------------------------------------------------------------------------

/// `H:M` with both parts unsigned integers, hours at most 23 and minutes at most 59.
pub open spec fn spec_parse_time(v: Seq<char>) -> Result<TimeOfDay, Seq<char>> {
    match split_once(v, ':') {
        None => Err("invalid time: "@ + v + "; expected HH:MM"@),
        Some((h, m)) => match parse_integer(h, 0, u32::MAX as int) {
            None => Err("invalid hour in time: "@ + v),
            Some(hv) => match parse_integer(m, 0, u32::MAX as int) {
                None => Err("invalid minute in time: "@ + v),
                Some(mv) => if hv > 23 || mv > 59 {
                    Err("invalid time: "@ + v + "; expected 00:00 through 23:59"@)
                } else {
                    Ok(TimeOfDay { hour: hv as u32, minute: mv as u32 })
                },
            },
        },
    }
}

/// A time written `HH:MM`, both parts zero-padded to two digits.
pub open spec fn time_text(t: TimeOfDay) -> Seq<char> {
    pad(t.hour as nat, 2) + seq![':'] + pad(t.minute as nat, 2)
}

pub fn parse_time_chars(v: &[char]) -> (r: Result<TimeOfDay, String>)
    ensures
        match r {
            Ok(t) => spec_parse_time(v@) == Ok::<TimeOfDay, Seq<char>>(t) && t.valid(),
            Err(e) => spec_parse_time(v@) == Err::<TimeOfDay, Seq<char>>(e@),
        },
{
    let s = string_of(v);
    let (h, m) = match split_once_chars(v, ':') {
        Some(p) => p,
        None => return Err(cat3("invalid time: ", s.as_str(), "; expected HH:MM")),
    };
    let hour = match parse_integer_chars(h.as_slice(), 0, u32::MAX as i64) {
        Some(x) => x,
        None => return Err(cat("invalid hour in time: ", s.as_str())),
    };
    let minute = match parse_integer_chars(m.as_slice(), 0, u32::MAX as i64) {
        Some(x) => x,
        None => return Err(cat("invalid minute in time: ", s.as_str())),
    };
    if hour > 23 || minute > 59 {
        return Err(cat3("invalid time: ", s.as_str(), "; expected 00:00 through 23:59"));
    }
    Ok(TimeOfDay { hour: hour as u32, minute: minute as u32 })
}

/// Parses a time of day written `HH:MM`.
pub fn parse_time(value: &str) -> (r: Result<TimeOfDay, String>)
    ensures
        match r {
            Ok(t) => spec_parse_time(value@) == Ok::<TimeOfDay, Seq<char>>(t) && t.valid(),
            Err(e) => spec_parse_time(value@) == Err::<TimeOfDay, Seq<char>>(e@),
        },
{
    let v = chars_of(value);
    parse_time_chars(v.as_slice())
}

/// Writes a time as `HH:MM`.
pub fn format_time(time: TimeOfDay) -> (r: String)
    ensures
        r@ == time_text(time),
{
    let mut s = String::new();
    push_padded(&mut s, time.hour as u64, 2);
    s.push(':');
    push_padded(&mut s, time.minute as u64, 2);
    assert(s@ =~= time_text(time));
    s
}

// ---------------------------------------------------------------------------
// Comma-separated values
// ---------------------------------------------------------------------------

/// The trimmed parts, leaving out those that are empty after trimming.
pub open spec fn nonempty_trimmed(parts: Seq<Seq<char>>) -> Seq<Seq<char>>
    decreases parts.len(),
{
    if parts.len() == 0 {
        seq![]
    } else {
        let r = nonempty_trimmed(parts.drop_last());
        let t = trim(parts.last());
        if t.len() > 0 {
            r.push(t)
        } else {
            r
        }
    }
}

/// The non-empty trimmed parts of a comma-separated list.
pub open spec fn spec_comma_values(v: Seq<char>) -> Seq<Seq<char>> {
    nonempty_trimmed(split(v, ','))
}

pub fn comma_values_chars(v: &[char]) -> (r: Vec<Vec<char>>)
    ensures
        views(r@) == spec_comma_values(v@),
{
    let parts = split_chars(v, ',');
    let mut r: Vec<Vec<char>> = Vec::new();
    let mut i: usize = 0;
    while i < parts.len()
        invariant
            i <= parts@.len(),
            views(parts@) == split(v@, ','),
            views(r@) == nonempty_trimmed(views(parts@).take(i as int)),
        decreases parts@.len() - i,
    {
        let ghost before = views(r@);
        let ghost ps = views(parts@);
        assert(ps.take(i + 1).drop_last() =~= ps.take(i as int));
        assert(ps.take(i + 1).last() == parts@[i as int]@);
        let t = trim_chars(parts[i].as_slice());
        if t.len() > 0 {
            let ghost tv = t@;
            r.push(t);
            assert(views(r@) =~= before.push(tv));
        }
        i = i + 1;
    }
    assert(views(parts@).take(parts@.len() as int) =~= views(parts@));
    r
}

/// Splits a comma-separated list into its non-empty trimmed parts.
pub fn comma_values(value: &str) -> (r: Vec<String>)
    ensures
        strs(r@) == spec_comma_values(value@),
{
    let v = chars_of(value);
    let parts = comma_values_chars(v.as_slice());
    let mut r: Vec<String> = Vec::new();
    let mut i: usize = 0;
    while i < parts.len()
        invariant
            i <= parts@.len(),
            strs(r@) == views(parts@).take(i as int),
        decreases parts@.len() - i,
    {
        let ghost before = strs(r@);
        let s = string_of(parts[i].as_slice());
        let ghost sv = s@;
        r.push(s);
        assert(strs(r@) =~= before.push(sv));
        assert(views(parts@).take(i + 1) =~= views(parts@).take(i as int).push(sv));
        i = i + 1;
    }
    assert(views(parts@).take(parts@.len() as int) =~= views(parts@));
    r
}

// ---------------------------------------------------------------------------
// Warning lists
// ---------------------------------------------------------------------------

/// Strictly decreasing.
pub open spec fn strictly_desc(s: Seq<i64>) -> bool {
    forall|i: int, j: int| 0 <= i < j < s.len() ==> s[i] > s[j]
}

/// `r` with `x` added at its place in decreasing order, unless it holds `x` already.
pub open spec fn insert_desc(r: Seq<i64>, x: i64) -> Seq<i64>
    decreases r.len(),
{
    if r.len() == 0 {
        seq![x]
    } else if r[0] == x {
        r
    } else if x > r[0] {
        seq![x] + r
    } else {
        seq![r[0]] + insert_desc(r.drop_first(), x)
    }
}

/// The values of `s` in strictly decreasing order, each once: what sorting,
/// removing repeats and reversing leave.
pub open spec fn norm_desc(s: Seq<i64>) -> Seq<i64>
    decreases s.len(),
{
    if s.len() == 0 {
        seq![]
    } else {
        insert_desc(norm_desc(s.drop_last()), s.last())
    }
}

/// What `normalize_warnings` gives for a list: an error for an empty one.
pub open spec fn spec_normalize(s: Seq<i64>) -> Result<Seq<i64>, Seq<char>> {
    if s.len() == 0 {
        Err("warning list cannot be empty"@)
    } else {
        Ok(norm_desc(s))
    }
}

proof fn lemma_desc_tail(s: Seq<i64>)
    requires
        strictly_desc(s),
        s.len() > 0,
    ensures
        strictly_desc(s.drop_first()),
{
    let t = s.drop_first();
    assert forall|i: int, j: int| 0 <= i < j < t.len() implies t[i] > t[j] by {
        assert(t[i] == s[i + 1] && t[j] == s[j + 1]);
    }
}

pub proof fn lemma_insert_desc(r: Seq<i64>, x: i64)
    requires
        strictly_desc(r),
    ensures
        strictly_desc(insert_desc(r, x)),
        insert_desc(r, x).to_set() == r.to_set().insert(x),
        insert_desc(r, x).len() > 0,
        (forall|k: int| 0 <= k < r.len() ==> r[k] > x) ==> insert_desc(r, x) == r.push(x),
    decreases r.len(),
{
    let res = insert_desc(r, x);
    if r.len() == 0 {
        assert(res.to_set() =~= r.to_set().insert(x)) by {
            assert(res[0] == x);
        }
    } else if r[0] == x {
        assert(res.to_set() =~= r.to_set().insert(x)) by {
            assert(r[0] == x);
        }
    } else if x > r[0] {
        assert forall|i: int, j: int| 0 <= i < j < res.len() implies res[i] > res[j] by {
            if i > 0 {
                assert(res[i] == r[i - 1]);
            }
            assert(res[j] == r[j - 1]);
        }
        assert(res.to_set() =~= r.to_set().insert(x)) by {
            assert forall|y: i64| res.contains(y) <==> r.to_set().insert(x).contains(y) by {
                if res.contains(y) {
                    let k = choose|k: int| 0 <= k < res.len() && res[k] == y;
                    if k > 0 {
                        assert(r[k - 1] == y);
                    }
                }
                if r.contains(y) {
                    let k = choose|k: int| 0 <= k < r.len() && r[k] == y;
                    assert(res[k + 1] == y);
                }
                if y == x {
                    assert(res[0] == y);
                }
            }
        }
    } else {
        let t = r.drop_first();
        lemma_desc_tail(r);
        lemma_insert_desc(t, x);
        let it = insert_desc(t, x);
        assert(res == seq![r[0]] + it);
        assert forall|i: int, j: int| 0 <= i < j < res.len() implies res[i] > res[j] by {
            if i == 0 {
                assert(res[j] == it[j - 1]);
                assert(it.to_set().contains(it[j - 1]));
                assert(t.to_set().insert(x).contains(it[j - 1]));
                if it[j - 1] != x {
                    let k = choose|k: int| 0 <= k < t.len() && t[k] == it[j - 1];
                    assert(r[k + 1] == t[k]);
                }
            } else {
                assert(res[i] == it[i - 1] && res[j] == it[j - 1]);
            }
        }
        assert(res.to_set() =~= r.to_set().insert(x)) by {
            assert forall|y: i64| res.contains(y) <==> r.to_set().insert(x).contains(y) by {
                if res.contains(y) {
                    let k = choose|k: int| 0 <= k < res.len() && res[k] == y;
                    if k > 0 {
                        assert(it[k - 1] == y);
                        assert(it.to_set().contains(y));
                        if t.contains(y) {
                            let m = choose|m: int| 0 <= m < t.len() && t[m] == y;
                            assert(r[m + 1] == y);
                        }
                    } else {
                        assert(r[0] == y);
                    }
                }
                if r.contains(y) {
                    let k = choose|k: int| 0 <= k < r.len() && r[k] == y;
                    if k > 0 {
                        assert(t[k - 1] == y);
                        assert(t.to_set().insert(x).contains(y));
                        assert(it.contains(y));
                        let m = choose|m: int| 0 <= m < it.len() && it[m] == y;
                        assert(res[m + 1] == y);
                    } else {
                        assert(res[0] == y);
                    }
                }
                if y == x {
                    assert(t.to_set().insert(x).contains(y));
                    assert(it.contains(y));
                    let m = choose|m: int| 0 <= m < it.len() && it[m] == y;
                    assert(res[m + 1] == y);
                }
            }
        }
        if forall|k: int| 0 <= k < r.len() ==> r[k] > x {
            assert forall|k: int| 0 <= k < t.len() implies t[k] > x by {
                assert(t[k] == r[k + 1]);
            }
            assert(res =~= r.push(x));
        }
    }
}

pub proof fn lemma_norm_desc(s: Seq<i64>)
    ensures
        strictly_desc(norm_desc(s)),
        norm_desc(s).to_set() == s.to_set(),
        s.len() > 0 ==> norm_desc(s).len() > 0,
        strictly_desc(s) ==> norm_desc(s) == s,
    decreases s.len(),
{
    if s.len() > 0 {
        let t = s.drop_last();
        lemma_norm_desc(t);
        lemma_insert_desc(norm_desc(t), s.last());
        assert(s.to_set() =~= t.to_set().insert(s.last())) by {
            assert forall|y: i64| s.contains(y) <==> t.to_set().insert(s.last()).contains(y) by {
                if s.contains(y) {
                    let k = choose|k: int| 0 <= k < s.len() && s[k] == y;
                    if k < t.len() {
                        assert(t[k] == y);
                    }
                }
                if t.contains(y) {
                    let k = choose|k: int| 0 <= k < t.len() && t[k] == y;
                    assert(s[k] == y);
                }
                if y == s.last() {
                    assert(s[s.len() - 1] == y);
                }
            }
        }
        if strictly_desc(s) {
            assert(strictly_desc(t)) by {
                assert forall|i: int, j: int| 0 <= i < j < t.len() implies t[i] > t[j] by {
                    assert(t[i] == s[i] && t[j] == s[j]);
                }
            }
            assert forall|k: int| 0 <= k < t.len() implies t[k] > s.last() by {
                assert(t[k] == s[k]);
            }
            assert(t.push(s.last()) =~= s);
        }
    } else {
        assert(s.to_set() =~= Set::<i64>::empty());
        assert(norm_desc(s).to_set() =~= Set::<i64>::empty());
    }
}

/// Inserts `x` into a strictly decreasing vector.
fn insert_desc_exec(r: &mut Vec<i64>, x: i64)
    requires
        strictly_desc(old(r)@),
    ensures
        final(r)@ == insert_desc(old(r)@, x),
{
    let ghost s = r@;
    let mut i: usize = 0;
    assert(s.skip(0) =~= s);
    assert(s.take(0) + insert_desc(s, x) =~= insert_desc(s, x));
    while i < r.len() && r[i] > x
        invariant
            s == r@,
            strictly_desc(s),
            i <= r@.len(),
            insert_desc(s, x) == s.take(i as int) + insert_desc(s.skip(i as int), x),
        decreases r@.len() - i,
    {
        let ghost rest = s.skip(i as int);
        assert(rest[0] == s[i as int]);
        assert(rest.drop_first() =~= s.skip(i + 1));
        assert(s.take(i + 1) =~= s.take(i as int).push(s[i as int]));
        assert(insert_desc(rest, x) =~= seq![s[i as int]] + insert_desc(s.skip(i + 1), x));
        i = i + 1;
    }
    let ghost rest = s.skip(i as int);
    if i < r.len() {
        assert(rest[0] == s[i as int]);
        if r[i] == x {
            assert(s.take(i as int) + rest =~= s);
            return;
        }
        assert(insert_desc(rest, x) == seq![x] + rest);
    }
    r.insert(i, x);
    assert(r@ =~= s.take(i as int) + insert_desc(rest, x));
}

/// Sorts the warnings from largest to smallest and drops repeats; an empty
/// list is an error.
pub fn normalize_warnings(warnings: &mut Vec<i64>) -> (r: Result<(), String>)
    ensures
        match r {
            Ok(()) => spec_normalize(old(warnings)@) == Ok::<Seq<i64>, Seq<char>>(
                final(warnings)@,
            ),
            Err(e) => spec_normalize(old(warnings)@) == Err::<Seq<i64>, Seq<char>>(e@)
                && final(warnings)@ == old(warnings)@,
        },
        strictly_desc(final(warnings)@),
        final(warnings)@.to_set() == old(warnings)@.to_set(),
{
    proof {
        lemma_norm_desc(warnings@);
    }
    if warnings.len() == 0 {
        return Err(String::from_str("warning list cannot be empty"));
    }
    let ghost s = warnings@;
    let mut out: Vec<i64> = Vec::new();
    let mut i: usize = 0;
    while i < warnings.len()
        invariant
            s == warnings@,
            i <= s.len(),
            out@ == norm_desc(s.take(i as int)),
            strictly_desc(out@),
        decreases s.len() - i,
    {
        assert(s.take(i + 1).drop_last() =~= s.take(i as int));
        proof {
            lemma_norm_desc(s.take(i + 1));
        }
        insert_desc_exec(&mut out, warnings[i]);
        i = i + 1;
    }
    assert(s.take(s.len() as int) =~= s);
    *warnings = out;
    Ok(())
}

/// The values of the parts, in order: each must parse as an `i64` of at
/// least 1; minutes are turned into seconds. The first bad part decides the error.
pub open spec fn collect_warnings(parts: Seq<Seq<char>>, minutes: bool) -> Result<
    Seq<i64>,
    Seq<char>,
>
    decreases parts.len(),
{
    if parts.len() == 0 {
        Ok(seq![])
    } else {
        match collect_warnings(parts.drop_last(), minutes) {
            Err(e) => Err(e),
            Ok(l) => {
                let p = parts.last();
                match parse_integer(p, i64::MIN as int, i64::MAX as int) {
                    None => Err(
                        if minutes {
                            "invalid warning minute: "@ + p
                        } else {
                            "invalid warning second: "@ + p
                        },
                    ),
                    Some(n) => if n < 1 {
                        Err(
                            if minutes {
                                "warning minutes must be at least 1"@
                            } else {
                                "warning seconds must be at least 1"@
                            },
                        )
                    } else {
                        Ok(
                            l.push(
                                (if minutes {
                                    n * 60
                                } else {
                                    n
                                }) as i64,
                            ),
                        )
                    },
                }
            },
        }
    }
}

/// No part that is reached holds a number of minutes whose count of seconds
/// overflows an `i64`.
pub open spec fn minutes_fit(parts: Seq<Seq<char>>) -> bool
    decreases parts.len(),
{
    parts.len() == 0 || {
        &&& minutes_fit(parts.drop_last())
        &&& match collect_warnings(parts.drop_last(), true) {
            Err(_) => true,
            Ok(_) => match parse_integer(parts.last(), i64::MIN as int, i64::MAX as int) {
                Some(n) => n < 1 || n * 60 <= i64::MAX,
                None => true,
            },
        }
    }
}

/// A list of warning minutes that `parse_warning_minutes` can take.
pub open spec fn warning_minutes_fit(v: Seq<char>) -> bool {
    minutes_fit(spec_comma_values(v))
}

proof fn lemma_collect_each(parts: Seq<Seq<char>>, minutes: bool)
    requires
        collect_warnings(parts, minutes) is Ok,
        minutes ==> minutes_fit(parts),
    ensures
        collect_warnings(parts, minutes)->Ok_0.len() == parts.len(),
        forall|i: int|
            0 <= i < parts.len() ==> {
                let n = parse_integer(#[trigger] parts[i], i64::MIN as int, i64::MAX as int);
                &&& n is Some
                &&& n->Some_0 >= 1
                &&& collect_warnings(parts, minutes)->Ok_0[i] == if minutes {
                    n->Some_0 * 60
                } else {
                    n->Some_0
                }
            },
    decreases parts.len(),
{
    if parts.len() > 0 {
        let t = parts.drop_last();
        lemma_collect_each(t, minutes);
        assert forall|i: int| 0 <= i < t.len() implies t[i] == parts[i] by {}
    }
}

/// A list of warning minutes reads as the seconds of its minute counts,
/// largest first, each once: a number of seconds is in the result exactly
/// when it is sixty times a count in the list, and every count is at least 1.
pub proof fn lemma_warning_minutes_in_seconds(v: Seq<char>)
    requires
        warning_minutes_fit(v),
        spec_parse_warning_minutes(v) is Ok,
    ensures
        ({
            let ws = spec_parse_warning_minutes(v)->Ok_0;
            let parts = spec_comma_values(v);
            &&& ws.len() > 0
            &&& strictly_desc(ws)
            &&& forall|i: int|
                0 <= i < parts.len() ==> (#[trigger] parse_integer(
                    parts[i],
                    i64::MIN as int,
                    i64::MAX as int,
                )) is Some && parse_integer(parts[i], i64::MIN as int, i64::MAX as int)->Some_0 >= 1
            &&& forall|x: i64|
                #![trigger ws.contains(x)]
                ws.contains(x) <==> exists|i: int|
                    0 <= i < parts.len() && parse_integer(parts[i], i64::MIN as int, i64::MAX as int)
                        == Some(x / 60) && x % 60 == 0
        }),
{
    let parts = spec_comma_values(v);
    let l = collect_warnings(parts, true)->Ok_0;
    lemma_collect_each(parts, true);
    lemma_norm_desc(l);
    let ws = spec_parse_warning_minutes(v)->Ok_0;
    assert(ws == norm_desc(l));
    assert forall|x: i64| #![trigger ws.contains(x)] ws.contains(x) <==> exists|i: int|
        0 <= i < parts.len() && parse_integer(parts[i], i64::MIN as int, i64::MAX as int) == Some(x / 60)
            && x % 60 == 0 by {
        assert(ws.to_set().contains(x) == ws.contains(x));
        assert(l.to_set().contains(x) == l.contains(x));
        if ws.contains(x) {
            let k = choose|k: int| 0 <= k < l.len() && l[k] == x;
            let n = parse_integer(parts[k], i64::MIN as int, i64::MAX as int)->Some_0;
            assert(x == n * 60);
            assert(x / 60 == n && x % 60 == 0) by (nonlinear_arith)
                requires x == n * 60;
        }
        if exists|i: int|
            0 <= i < parts.len() && parse_integer(parts[i], i64::MIN as int, i64::MAX as int) == Some(x / 60)
                && x % 60 == 0 {
            let i = choose|i: int|
                0 <= i < parts.len() && parse_integer(parts[i], i64::MIN as int, i64::MAX as int)
                    == Some(x / 60) && x % 60 == 0;
            let n = parse_integer(parts[i], i64::MIN as int, i64::MAX as int)->Some_0;
            assert(x == n * 60) by (nonlinear_arith)
                requires n == x / 60, x % 60 == 0;
            assert(l[i] == x);
            assert(l.contains(x));
        }
    }
}

/// Comma-separated warning minutes, turned into seconds and normalised.
pub open spec fn spec_parse_warning_minutes(v: Seq<char>) -> Result<Seq<i64>, Seq<char>> {
    match collect_warnings(spec_comma_values(v), true) {
        Err(e) => Err(e),
        Ok(l) => spec_normalize(l),
    }
}

/// Comma-separated warning seconds, normalised.
pub open spec fn spec_parse_warning_seconds(v: Seq<char>) -> Result<Seq<i64>, Seq<char>> {
    match collect_warnings(spec_comma_values(v), false) {
        Err(e) => Err(e),
        Ok(l) => spec_normalize(l),
    }
}

pub proof fn lemma_collect_prefix_err(parts: Seq<Seq<char>>, k: int, minutes: bool)
    requires
        0 <= k <= parts.len(),
        collect_warnings(parts.take(k), minutes) is Err,
    ensures
        collect_warnings(parts, minutes) == collect_warnings(parts.take(k), minutes),
    decreases parts.len() - k,
{
    if k < parts.len() {
        assert(parts.drop_last().take(k) =~= parts.take(k));
        lemma_collect_prefix_err(parts.drop_last(), k, minutes);
    } else {
        assert(parts.take(k) =~= parts);
    }
}

proof fn lemma_minutes_fit_prefix(parts: Seq<Seq<char>>, k: int)
    requires
        0 <= k <= parts.len(),
        minutes_fit(parts),
    ensures
        minutes_fit(parts.take(k)),
    decreases parts.len() - k,
{
    if k < parts.len() {
        lemma_minutes_fit_prefix(parts.drop_last(), k);
        assert(parts.drop_last().take(k) =~= parts.take(k));
    } else {
        assert(parts.take(k) =~= parts);
    }
}

fn collect_warnings_exec(parts: &Vec<Vec<char>>, minutes: bool) -> (r: Result<Vec<i64>, String>)
    requires
        minutes ==> minutes_fit(views(parts@)),
    ensures
        match r {
            Ok(l) => collect_warnings(views(parts@), minutes) == Ok::<Seq<i64>, Seq<char>>(l@),
            Err(e) => collect_warnings(views(parts@), minutes) == Err::<Seq<i64>, Seq<char>>(
                e@,
            ),
        },
{
    let ghost ps = views(parts@);
    let mut out: Vec<i64> = Vec::new();
    let mut i: usize = 0;
    assert(ps.take(0) =~= Seq::<Seq<char>>::empty());
    while i < parts.len()
        invariant
            ps == views(parts@),
            minutes ==> minutes_fit(ps),
            i <= ps.len(),
            collect_warnings(ps.take(i as int), minutes) == Ok::<Seq<i64>, Seq<char>>(out@),
        decreases ps.len() - i,
    {
        let ghost pre = ps.take(i as int);
        let ghost next = ps.take(i + 1);
        assert(next.drop_last() =~= pre);
        assert(next.last() == parts@[i as int]@);
        proof {
            if minutes {
                lemma_minutes_fit_prefix(ps, i + 1);
            }
        }
        let p = string_of(parts[i].as_slice());
        let n = match parse_integer_chars(parts[i].as_slice(), i64::MIN, i64::MAX) {
            Some(n) => n,
            None => {
                proof {
                    lemma_collect_prefix_err(ps, i + 1, minutes);
                }
                return Err(
                    if minutes {
                        cat("invalid warning minute: ", p.as_str())
                    } else {
                        cat("invalid warning second: ", p.as_str())
                    },
                );
            },
        };
        if n < 1 {
            proof {
                lemma_collect_prefix_err(ps, i + 1, minutes);
            }
            return Err(
                if minutes {
                    String::from_str("warning minutes must be at least 1")
                } else {
                    String::from_str("warning seconds must be at least 1")
                },
            );
        }
        if minutes {
            out.push(n * 60);
        } else {
            out.push(n);
        }
        i = i + 1;
    }
    assert(ps.take(ps.len() as int) =~= ps);
    Ok(out)
}

/// Parses comma-separated warning minutes into seconds, largest first.
pub fn parse_warning_minutes(value: &str) -> (r: Result<Vec<i64>, String>)
    requires
        warning_minutes_fit(value@),
    ensures
        match r {
            Ok(l) => spec_parse_warning_minutes(value@) == Ok::<Seq<i64>, Seq<char>>(l@),
            Err(e) => spec_parse_warning_minutes(value@) == Err::<Seq<i64>, Seq<char>>(e@),
        },
{
    let v = chars_of(value);
    let parts = comma_values_chars(v.as_slice());
    let mut seconds = collect_warnings_exec(&parts, true)?;
    normalize_warnings(&mut seconds)?;
    Ok(seconds)
}

/// Whether `parse_warning_minutes` can take this list: no minute count that
/// is reached overflows when turned into seconds.
pub fn warning_minutes_in_range(value: &str) -> (r: bool)
    ensures
        r == warning_minutes_fit(value@),
{
    let v = chars_of(value);
    let parts = comma_values_chars(v.as_slice());
    let ghost ps = views(parts@);
    let mut i: usize = 0;
    assert(ps.take(0) =~= Seq::<Seq<char>>::empty());
    while i < parts.len()
        invariant
            ps == views(parts@),
            ps == spec_comma_values(value@),
            i <= ps.len(),
            minutes_fit(ps.take(i as int)),
            collect_warnings(ps.take(i as int), true) is Ok,
        decreases ps.len() - i,
    {
        let ghost pre = ps.take(i as int);
        let ghost next = ps.take(i + 1);
        assert(next.drop_last() =~= pre);
        assert(next.last() == parts@[i as int]@);
        match parse_integer_chars(parts[i].as_slice(), i64::MIN, i64::MAX) {
            Some(n) => {
                if n >= 1 && n > i64::MAX / 60 {
                    proof {
                        assert(!minutes_fit(next));
                        if minutes_fit(ps) {
                            lemma_minutes_fit_prefix(ps, i + 1);
                        }
                    }
                    return false;
                }
                if n < 1 {
                    proof {
                        assert(minutes_fit(next));
                        assert(collect_warnings(next, true) is Err);
                        lemma_minutes_fit_tail_after_err(ps, i + 1);
                    }
                    return true;
                }
            },
            None => {
                proof {
                    assert(minutes_fit(next));
                    assert(collect_warnings(next, true) is Err);
                    lemma_minutes_fit_tail_after_err(ps, i + 1);
                }
                return true;
            },
        }
        i = i + 1;
    }
    assert(ps.take(ps.len() as int) =~= ps);
    true
}

/// Once the collection has failed on a prefix, later parts cannot overflow.
proof fn lemma_minutes_fit_tail_after_err(parts: Seq<Seq<char>>, k: int)
    requires
        0 <= k <= parts.len(),
        minutes_fit(parts.take(k)),
        collect_warnings(parts.take(k), true) is Err,
    ensures
        minutes_fit(parts),
    decreases parts.len() - k,
{
    if k < parts.len() {
        assert(parts.drop_last().take(k) =~= parts.take(k));
        lemma_minutes_fit_tail_after_err(parts.drop_last(), k);
        lemma_collect_prefix_err(parts.drop_last(), k, true);
    } else {
        assert(parts.take(k) =~= parts);
    }
}

/// Parses comma-separated warning seconds, largest first.
pub fn parse_warning_seconds(value: &str) -> (r: Result<Vec<i64>, String>)
    ensures
        match r {
            Ok(l) => spec_parse_warning_seconds(value@) == Ok::<Seq<i64>, Seq<char>>(l@),
            Err(e) => spec_parse_warning_seconds(value@) == Err::<Seq<i64>, Seq<char>>(e@),
        },
{
    let v = chars_of(value);
    parse_warning_seconds_chars(v.as_slice())
}

pub fn parse_warning_seconds_chars(v: &[char]) -> (r: Result<Vec<i64>, String>)
    ensures
        match r {
            Ok(l) => spec_parse_warning_seconds(v@) == Ok::<Seq<i64>, Seq<char>>(l@)
                && strictly_desc(l@) && l@.len() > 0,
            Err(e) => spec_parse_warning_seconds(v@) == Err::<Seq<i64>, Seq<char>>(e@),
        },
{
    let parts = comma_values_chars(v);
    let mut seconds = collect_warnings_exec(&parts, false)?;
    normalize_warnings(&mut seconds)?;
    proof {
        lemma_norm_desc(collect_warnings(views(parts@), false)->Ok_0);
    }
    Ok(seconds)
}

} // verus!
