//! The configuration file: `key=value` lines, blank lines and `#` comments.
//! Reading text into a `Config`, writing a `Config` as text, and the law
//! that reading what was written gives the same configuration back.
use vstd::prelude::*;
use crate::calendar::{cat, parse_date, spec_parse_date};
use crate::config::{
    collect_warnings, default_warnings, bool_text, comma_values_chars, default_model, language_name, lemma_norm_desc,
    normalize_warnings, parse_bool_chars, parse_language_chars, parse_time_chars,
    parse_warning_seconds_chars, spec_comma_values, spec_normalize, spec_parse_bool,
    spec_parse_language, spec_parse_time, spec_parse_warning_seconds, strictly_desc, time_text,
    Config, ConfigModel, Language, TimeOfDay, format_language, format_time,
};
use crate::dateset::{insert_all, insert_str, lemma_insert_all, lemma_insert_sorted, sorted, strs, insert_sorted};
use crate::text::{
    lemma_split_lacks, lemma_sub_lacks, lemma_trim_trimmed, all_chars, all_digits, chars_eq, chars_of, dec, first_index, int_str, is_digit, is_ws, join,
    lacks, lemma_dec, lemma_first_index_at, lemma_join_all, lemma_join_push, lemma_join_split,
    lemma_parse_dec, lemma_parse_pad, lemma_split_join, lemma_trim_fixed, pad, parse_integer,
    push_dec, push_int, signed_value, split, split_chars, split_once, split_once_chars, string_of,
    trim, trim_chars, trimmed, views, digits_value,
};
use crate::dateset::{lex_lt, lemma_lex_asymmetric, lemma_lex_irreflexive};

verus! {

/// The error for a line that is neither blank, a comment, nor `key=value`.
pub open spec fn invalid_line_error(line: Seq<char>, idx: nat) -> Seq<char> {
    "invalid config line "@ + dec(idx + 1) + ": "@ + line
}

/// The error for a key that is not a setting.
pub open spec fn unknown_key_error(key: Seq<char>, idx: nat) -> Seq<char> {
    "unknown config key on line "@ + dec(idx + 1) + ": "@ + key
}

/// The error of the first date in the list that does not parse.
pub open spec fn first_date_error(dates: Seq<Seq<char>>) -> Option<Seq<char>>
    decreases dates.len(),
{
    if dates.len() == 0 {
        None
    } else {
        match first_date_error(dates.drop_last()) {
            Some(e) => Some(e),
            None => match spec_parse_date(dates.last()) {
                Err(e) => Some(e),
                Ok(_) => None,
            },
        }
    }
}

/// The configuration after the setting `key` is given `value` on line `idx`
/// (counted from 0).
pub open spec fn apply_setting(key: Seq<char>, value: Seq<char>, idx: nat, c: ConfigModel) -> Result<
    ConfigModel,
    Seq<char>,
> {
    if key == "enabled"@ {
        match spec_parse_bool(value) {
            Ok(b) => Ok(ConfigModel { enabled: b, ..c }),
            Err(e) => Err(e),
        }
    } else if key == "time"@ {
        if value.len() == 0 {
            Ok(ConfigModel { shutdown_time: None, ..c })
        } else {
            match spec_parse_time(value) {
                Ok(t) => Ok(ConfigModel { shutdown_time: Some(t), ..c }),
                Err(e) => Err(e),
            }
        }
    } else if key == "canceled_dates"@ {
        let dates = spec_comma_values(value);
        match first_date_error(dates) {
            Some(e) => Err(e),
            None => Ok(ConfigModel { canceled_dates: insert_all(seq![], dates), ..c }),
        }
    } else if key == "warning_seconds"@ {
        match spec_parse_warning_seconds(value) {
            Ok(w) => Ok(ConfigModel { warning_seconds: w, ..c }),
            Err(e) => Err(e),
        }
    } else if key == "shutdown_command"@ {
        Ok(ConfigModel { shutdown_command: value, ..c })
    } else if key == "dry_run"@ {
        match spec_parse_bool(value) {
            Ok(b) => Ok(ConfigModel { dry_run: b, ..c }),
            Err(e) => Err(e),
        }
    } else if key == "language"@ {
        match spec_parse_language(value) {
            Ok(l) => Ok(ConfigModel { language: l, ..c }),
            Err(e) => Err(e),
        }
    } else {
        Err(unknown_key_error(key, idx))
    }
}

/// One line of the file: blank lines and lines starting with `#` (after
/// trimming) change nothing; other lines must be `key=value`.
pub open spec fn apply_line(raw: Seq<char>, idx: nat, c: ConfigModel) -> Result<
    ConfigModel,
    Seq<char>,
> {
    let line = trim(raw);
    if line.len() == 0 || line[0] == '#' {
        Ok(c)
    } else {
        match split_once(line, '=') {
            None => Err(invalid_line_error(line, idx)),
            Some((k, v)) => apply_setting(trim(k), trim(v), idx, c),
        }
    }
}

/// The lines from number `i` on, applied in order; the first error stops.
pub open spec fn apply_lines(lines: Seq<Seq<char>>, i: nat, c: ConfigModel) -> Result<
    ConfigModel,
    Seq<char>,
>
    decreases lines.len() - i,
{
    if i >= lines.len() {
        Ok(c)
    } else {
        match apply_line(lines[i as int], i, c) {
            Ok(c2) => apply_lines(lines, i + 1, c2),
            Err(e) => Err(e),
        }
    }
}

/// The configuration a file's text describes: the defaults, changed by each
/// line in turn, with the warning list normalised at the end.
pub open spec fn spec_parse_config(content: Seq<char>) -> Result<ConfigModel, Seq<char>> {
    match apply_lines(split(content, '\n'), 0, default_model()) {
        Err(e) => Err(e),
        Ok(c) => match spec_normalize(c.warning_seconds) {
            Err(e) => Err(e),
            Ok(w) => Ok(ConfigModel { warning_seconds: w, ..c }),
        },
    }
}

/// The comment at the top of a written file.
pub open spec fn header_line() -> Seq<char> {
    "# Managed by daily-poweroff. Edit carefully, or use the CLI."@
}

/// The value of the `time` setting: empty when no time is set.
pub open spec fn time_value(t: Option<TimeOfDay>) -> Seq<char> {
    match t {
        Some(t) => time_text(t),
        None => seq![],
    }
}

/// The warning offsets in decimal.
pub open spec fn int_strs(w: Seq<i64>) -> Seq<Seq<char>> {
    w.map_values(|x: i64| int_str(x as int))
}

/// The warning offsets in decimal, joined with commas.
pub open spec fn warnings_text(w: Seq<i64>) -> Seq<char> {
    join(int_strs(w), seq![','])
}

/// The lines of a written file, in order.
pub open spec fn config_lines(c: ConfigModel) -> Seq<Seq<char>> {
    seq![
        header_line(),
        "enabled="@ + bool_text(c.enabled),
        "time="@ + time_value(c.shutdown_time),
        "canceled_dates="@ + join(c.canceled_dates, seq![',']),
        "warning_seconds="@ + warnings_text(c.warning_seconds),
        "shutdown_command="@ + c.shutdown_command,
        "dry_run="@ + bool_text(c.dry_run),
        "language="@ + language_name(c.language),
    ]
}

/// Each line followed by a newline.
pub open spec fn lines_text(lines: Seq<Seq<char>>) -> Seq<char>
    decreases lines.len(),
{
    if lines.len() == 0 {
        seq![]
    } else {
        lines_text(lines.drop_last()) + lines.last() + seq!['\n']
    }
}

/// The text written for a configuration.
pub open spec fn spec_render(c: ConfigModel) -> Seq<char> {
    lines_text(config_lines(c))
}

pub proof fn lemma_first_date_error_prefix(dates: Seq<Seq<char>>, k: int)
    requires
        0 <= k <= dates.len(),
        first_date_error(dates.take(k)) is Some,
    ensures
        first_date_error(dates) == first_date_error(dates.take(k)),
    decreases dates.len() - k,
{
    if k < dates.len() {
        assert(dates.drop_last().take(k) =~= dates.take(k));
        lemma_first_date_error_prefix(dates.drop_last(), k);
    } else {
        assert(dates.take(k) =~= dates);
    }
}

/// Sets `key` to `value` as line `idx` of the file does.
fn apply_setting_exec(cfg: &mut Config, key: &[char], value: &[char], idx: usize) -> (r: Result<
    (),
    String,
>)
    requires
        old(cfg)@.wf(),
        idx < usize::MAX,
    ensures
        match r {
            Ok(()) => apply_setting(key@, value@, idx as nat, old(cfg)@) == Ok::<
                ConfigModel,
                Seq<char>,
            >(final(cfg)@) && final(cfg)@.wf(),
            Err(e) => apply_setting(key@, value@, idx as nat, old(cfg)@) == Err::<
                ConfigModel,
                Seq<char>,
            >(e@),
        },
{
    if chars_eq(key, "enabled") {
        cfg.enabled = parse_bool_chars(value)?;
        Ok(())
    } else if chars_eq(key, "time") {
        if value.len() == 0 {
            cfg.shutdown_time = None;
        } else {
            cfg.shutdown_time = Some(parse_time_chars(value)?);
        }
        Ok(())
    } else if chars_eq(key, "canceled_dates") {
        let dates = comma_values_chars(value);
        let ghost ds = views(dates@);
        let mut list: Vec<String> = Vec::new();
        let mut k: usize = 0;
        assert(ds.take(0) =~= Seq::<Seq<char>>::empty());
        assert(strs(list@) =~= Seq::<Seq<char>>::empty());
        while k < dates.len()
            invariant
                ds == views(dates@),
                ds == spec_comma_values(value@),
                key@ == "canceled_dates"@,
                key@ != "enabled"@,
                key@ != "time"@,
                k <= ds.len(),
                first_date_error(ds.take(k as int)) is None,
                strs(list@) == insert_all(seq![], ds.take(k as int)),
                sorted(strs(list@)),
            decreases ds.len() - k,
        {
            let ghost next = ds.take(k + 1);
            assert(next.drop_last() =~= ds.take(k as int));
            assert(next.last() == dates@[k as int]@);
            let s = string_of(dates[k].as_slice());
            match parse_date(s.as_str()) {
                Ok(_) => {},
                Err(e) => {
                    proof {
                        lemma_first_date_error_prefix(ds, k + 1);
                    }
                    return Err(e);
                },
            }
            insert_str(&mut list, s);
            k = k + 1;
        }
        assert(ds.take(ds.len() as int) =~= ds);
        cfg.canceled_dates = list;
        Ok(())
    } else if chars_eq(key, "warning_seconds") {
        cfg.warning_seconds = parse_warning_seconds_chars(value)?;
        Ok(())
    } else if chars_eq(key, "shutdown_command") {
        cfg.shutdown_command = string_of(value);
        Ok(())
    } else if chars_eq(key, "dry_run") {
        cfg.dry_run = parse_bool_chars(value)?;
        Ok(())
    } else if chars_eq(key, "language") {
        cfg.language = parse_language_chars(value)?;
        Ok(())
    } else {
        let mut e = String::from_str("unknown config key on line ");
        push_dec(&mut e, (idx + 1) as u64);
        e.append(": ");
        let k = string_of(key);
        e.append(k.as_str());
        Err(e)
    }
}

/// Applies line `idx` of the file.
fn apply_line_exec(cfg: &mut Config, raw: &[char], idx: usize) -> (r: Result<(), String>)
    requires
        old(cfg)@.wf(),
        idx < usize::MAX,
    ensures
        match r {
            Ok(()) => apply_line(raw@, idx as nat, old(cfg)@) == Ok::<ConfigModel, Seq<char>>(
                final(cfg)@,
            ) && final(cfg)@.wf(),
            Err(e) => apply_line(raw@, idx as nat, old(cfg)@) == Err::<ConfigModel, Seq<char>>(
                e@,
            ),
        },
{
    let line = trim_chars(raw);
    if line.len() == 0 || line[0] == '#' {
        return Ok(());
    }
    match split_once_chars(line.as_slice(), '=') {
        None => {
            let mut e = String::from_str("invalid config line ");
            push_dec(&mut e, (idx + 1) as u64);
            e.append(": ");
            let l = string_of(line.as_slice());
            e.append(l.as_str());
            Err(e)
        },
        Some((k, v)) => {
            let key = trim_chars(k.as_slice());
            let value = trim_chars(v.as_slice());
            apply_setting_exec(cfg, key.as_slice(), value.as_slice(), idx)
        },
    }
}

impl Config {
    /// Reads a configuration from the text of its file.
    pub fn parse(content: &str) -> (r: Result<Config, String>)
        ensures
            match r {
                Ok(c) => spec_parse_config(content@) == Ok::<ConfigModel, Seq<char>>(c@) && c@.wf(),
                Err(e) => spec_parse_config(content@) == Err::<ConfigModel, Seq<char>>(e@),
            },
    {
        let text = chars_of(content);
        let lines = split_chars(text.as_slice(), '\n');
        let ghost ls = views(lines@);
        let mut cfg = Config::default();
        let mut i: usize = 0;
        while i < lines.len()
            invariant
                ls == views(lines@),
                ls == split(content@, '\n'),
                i <= ls.len(),
                apply_lines(ls, 0, default_model()) == apply_lines(ls, i as nat, cfg@),
                cfg@.wf(),
            decreases ls.len() - i,
        {
            assert(ls[i as int] == lines@[i as int]@);
            match apply_line_exec(&mut cfg, lines[i].as_slice(), i) {
                Ok(()) => {},
                Err(e) => return Err(e),
            }
            i = i + 1;
        }
        let ghost before = cfg@;
        match normalize_warnings(&mut cfg.warning_seconds) {
            Ok(()) => {},
            Err(e) => return Err(e),
        }
        assert(cfg@ == ConfigModel { warning_seconds: cfg.warning_seconds@, ..before });
        Ok(cfg)
    }

    /// The text of the file that holds this configuration.
    pub fn render(&self) -> (s: String)
        ensures
            s@ == spec_render(self@),
    {
        let ghost ls = config_lines(self@);
        let mut s = String::new();
        assert(ls.take(0) =~= Seq::<Seq<char>>::empty());
        push_line(&mut s, "# Managed by daily-poweroff. Edit carefully, or use the CLI.", Ghost(ls), 0);
        let l = cat("enabled=", bool_str(self.enabled));
        push_line(&mut s, l.as_str(), Ghost(ls), 1);
        let mut l = String::from_str("time=");
        match self.shutdown_time {
            Some(t) => {
                let ts = format_time(t);
                l.append(ts.as_str());
            },
            None => {},
        }
        assert(l@ =~= ls[2]);
        push_line(&mut s, l.as_str(), Ghost(ls), 2);
        let mut l = String::from_str("canceled_dates=");
        push_joined_strs(&mut l, &self.canceled_dates, ",");
        proof {
            reveal_strlit(",");
            assert(","@ =~= seq![',']);
        }
        push_line(&mut s, l.as_str(), Ghost(ls), 3);
        let mut l = String::from_str("warning_seconds=");
        push_joined_ints(&mut l, &self.warning_seconds);
        push_line(&mut s, l.as_str(), Ghost(ls), 4);
        let l = cat("shutdown_command=", self.shutdown_command.as_str());
        push_line(&mut s, l.as_str(), Ghost(ls), 5);
        let l = cat("dry_run=", bool_str(self.dry_run));
        push_line(&mut s, l.as_str(), Ghost(ls), 6);
        let l = cat("language=", format_language(self.language));
        push_line(&mut s, l.as_str(), Ghost(ls), 7);
        assert(ls.take(8) =~= ls);
        s
    }
}

/// Appends line `k` of `ls` and a newline to the text of the lines before it.
fn push_line(s: &mut String, line: &str, Ghost(ls): Ghost<Seq<Seq<char>>>, k: usize)
    requires
        old(s)@ == lines_text(ls.take(k as int)),
        k < ls.len(),
        line@ == ls[k as int],
    ensures
        final(s)@ == lines_text(ls.take(k + 1)),
{
    s.append(line);
    s.push('\n');
    assert(ls.take(k + 1).drop_last() =~= ls.take(k as int));
    assert(final(s)@ =~= lines_text(ls.take(k + 1)));
}

/// A boolean as `Display` writes it.
pub fn bool_str(b: bool) -> (r: &'static str)
    ensures
        r@ == bool_text(b),
{
    if b {
        "true"
    } else {
        "false"
    }
}

/// Appends the strings joined with commas.
pub fn push_joined_strs(s: &mut String, items: &Vec<String>, sep: &str)
    ensures
        final(s)@ == old(s)@ + join(strs(items@), sep@),
{
    let ghost xs = strs(items@);
    let mut i: usize = 0;
    assert(xs.take(0) =~= Seq::<Seq<char>>::empty());
    while i < items.len()
        invariant
            xs == strs(items@),
            i <= xs.len(),
            s@ == old(s)@ + join(xs.take(i as int), sep@),
        decreases xs.len() - i,
    {
        proof {
            lemma_join_push(xs.take(i as int), sep@, xs[i as int]);
            assert(xs.take(i + 1) =~= xs.take(i as int).push(xs[i as int]));
        }
        if i > 0 {
            s.append(sep);
        }
        s.append(items[i].as_str());
        assert(s@ =~= old(s)@ + join(xs.take(i + 1), sep@));
        i = i + 1;
    }
    assert(xs.take(xs.len() as int) =~= xs);
}

/// Appends the integers in decimal, joined with commas.
pub fn push_joined_ints(s: &mut String, items: &Vec<i64>)
    ensures
        final(s)@ == old(s)@ + warnings_text(items@),
{
    let ghost xs = int_strs(items@);
    let mut i: usize = 0;
    assert(xs.take(0) =~= Seq::<Seq<char>>::empty());
    while i < items.len()
        invariant
            xs == int_strs(items@),
            i <= xs.len(),
            s@ == old(s)@ + join(xs.take(i as int), seq![',']),
        decreases xs.len() - i,
    {
        proof {
            lemma_join_push(xs.take(i as int), seq![','], xs[i as int]);
            assert(xs.take(i + 1) =~= xs.take(i as int).push(xs[i as int]));
        }
        if i > 0 {
            s.push(',');
        }
        push_int(s, items[i]);
        assert(s@ =~= old(s)@ + join(xs.take(i + 1), seq![',']));
        i = i + 1;
    }
    assert(xs.take(xs.len() as int) =~= xs);
}

// ---------------------------------------------------------------------------
// Reading back what was written
// ---------------------------------------------------------------------------

/// A character that can stand in a date: a digit or a sign.
pub open spec fn date_char(ch: char) -> bool {
    is_digit(ch) || ch == '+' || ch == '-'
}

/// A character that is not whitespace.
pub open spec fn not_ws(ch: char) -> bool {
    !is_ws(ch)
}

/// A configuration that the file format can hold: well formed, warnings of
/// at least one second, canceled dates that parse, a valid time, and a
/// command on one line with no whitespace at its ends (the file trims values).
pub open spec fn storable(c: ConfigModel) -> bool {
    &&& c.wf()
    &&& forall|k: int| 0 <= k < c.warning_seconds.len() ==> #[trigger] c.warning_seconds[k] >= 1
    &&& forall|k: int|
        0 <= k < c.canceled_dates.len() ==> spec_parse_date(#[trigger] c.canceled_dates[k]) is Ok
    &&& match c.shutdown_time {
        Some(t) => t.valid(),
        None => true,
    }
    &&& lacks(c.shutdown_command, '\n')
    &&& trimmed(c.shutdown_command)
}

proof fn lemma_lines_text_join(ls: Seq<Seq<char>>)
    ensures
        lines_text(ls) == join(ls.push(seq![]), seq!['\n']),
    decreases ls.len(),
{
    if ls.len() == 0 {
        assert(ls.push(seq![]) =~= seq![Seq::<char>::empty()]);
    } else {
        let d = ls.drop_last();
        lemma_lines_text_join(d);
        lemma_join_push(ls, seq!['\n'], seq![]);
        lemma_join_push(d, seq!['\n'], ls.last());
        lemma_join_push(d, seq!['\n'], seq![]);
        assert(d.push(ls.last()) =~= ls);
        if d.len() == 0 {
            assert(d.push(seq![]) =~= seq![Seq::<char>::empty()]);
        }
        assert(lines_text(ls) =~= join(ls.push(seq![]), seq!['\n']));
    }
}

/// A line `key=value` sets `key` to `value`.
proof fn lemma_setting_line(key: Seq<char>, value: Seq<char>, idx: nat, c: ConfigModel)
    requires
        key.len() > 0,
        lacks(key, '='),
        !is_ws(key[0]),
        !is_ws(key.last()),
        key[0] != '#',
        trimmed(value),
    ensures
        apply_line(key + seq!['='] + value, idx, c) == apply_setting(key, value, idx, c),
{
    let line = key + seq!['='] + value;
    assert(line[0] == key[0]);
    if value.len() > 0 {
        assert(line.last() == value.last());
    } else {
        assert(line.last() == '=');
    }
    lemma_trim_fixed(line);
    assert(line[key.len() as int] == '=');
    lemma_first_index_at(line, '=', key.len() as int);
    assert(line.take(key.len() as int) =~= key);
    assert(line.skip(key.len() + 1 as int) =~= value);
    lemma_trim_fixed(key);
    lemma_trim_fixed(value);
}

/// The characters of a date that parses are digits and signs, and there is one at least.
pub proof fn lemma_date_chars(d: Seq<char>)
    requires
        spec_parse_date(d) is Ok,
    ensures
        d.len() > 0,
        all_chars(d, |ch: char| date_char(ch)),
{
    let parts = split(d, '-');
    let p = |ch: char| date_char(ch);
    assert forall|k: int| 0 <= k < parts.len() implies all_chars(#[trigger] parts[k], p) by {
        let s = parts[k];
        let signed = k == 0;
        assert(signed_value(s, signed) is Some || signed_value(s, false) is Some);
        assert forall|i: int| 0 <= i < s.len() implies p(#[trigger] s[i]) by {
            if i > 0 && (s[0] == '+' || s[0] == '-') {
                assert(s[i] == s.drop_first()[i - 1]);
            }
        }
    }
    lemma_join_split(d, '-');
    assert(all_chars(seq!['-'], p));
    lemma_join_all(parts, seq!['-'], p);
    assert(join(parts, seq!['-']) == parts[0] + seq!['-'] + join(parts.drop_first(), seq!['-']));
}

proof fn lemma_nonempty_trimmed_id(ps: Seq<Seq<char>>)
    requires
        forall|k: int| 0 <= k < ps.len() ==> (#[trigger] ps[k]).len() > 0 && trimmed(ps[k]),
    ensures
        crate::config::nonempty_trimmed(ps) == ps,
    decreases ps.len(),
{
    if ps.len() > 0 {
        let d = ps.drop_last();
        assert forall|k: int| 0 <= k < d.len() implies (#[trigger] d[k]).len() > 0 && trimmed(
            d[k],
        ) by {
            assert(d[k] == ps[k]);
        }
        lemma_nonempty_trimmed_id(d);
        assert(ps.last() == ps[ps.len() - 1]);
        lemma_trim_fixed(ps.last());
        assert(d.push(ps.last()) =~= ps);
    }
}

proof fn lemma_insert_sorted_last(s: Seq<Seq<char>>, x: Seq<char>)
    requires
        forall|k: int| 0 <= k < s.len() ==> lex_lt(#[trigger] s[k], x),
    ensures
        insert_sorted(s, x) == s.push(x),
    decreases s.len(),
{
    if s.len() > 0 {
        assert(lex_lt(s[0], x));
        lemma_lex_irreflexive(x);
        lemma_lex_asymmetric(s[0], x);
        let t = s.drop_first();
        assert forall|k: int| 0 <= k < t.len() implies lex_lt(#[trigger] t[k], x) by {
            assert(t[k] == s[k + 1]);
        }
        lemma_insert_sorted_last(t, x);
        assert(seq![s[0]] + t.push(x) =~= s.push(x));
    }
}

proof fn lemma_insert_all_sorted_id(s: Seq<Seq<char>>)
    requires
        sorted(s),
    ensures
        insert_all(seq![], s) == s,
    decreases s.len(),
{
    if s.len() > 0 {
        let d = s.drop_last();
        assert(sorted(d));
        lemma_insert_all_sorted_id(d);
        assert forall|k: int| 0 <= k < d.len() implies lex_lt(#[trigger] d[k], s.last()) by {
            assert(d[k] == s[k]);
        }
        lemma_insert_sorted_last(d, s.last());
        assert(d.push(s.last()) =~= s);
    }
}

proof fn lemma_first_date_error_none(ds: Seq<Seq<char>>)
    requires
        forall|k: int| 0 <= k < ds.len() ==> spec_parse_date(#[trigger] ds[k]) is Ok,
    ensures
        first_date_error(ds) is None,
    decreases ds.len(),
{
    if ds.len() > 0 {
        let d = ds.drop_last();
        assert forall|k: int| 0 <= k < d.len() implies spec_parse_date(#[trigger] d[k]) is Ok by {
            assert(d[k] == ds[k]);
        }
        lemma_first_date_error_none(d);
        assert(spec_parse_date(ds[ds.len() - 1]) is Ok);
    }
}

proof fn lemma_collect_ints(ws: Seq<i64>)
    requires
        forall|k: int| 0 <= k < ws.len() ==> #[trigger] ws[k] >= 1,
    ensures
        crate::config::collect_warnings(int_strs(ws), false) == Ok::<
            Seq<i64>,
            Seq<char>,
        >(ws),
    decreases ws.len(),
{
    let ps = int_strs(ws);
    if ws.len() > 0 {
        let d = ws.drop_last();
        assert forall|k: int| 0 <= k < d.len() implies #[trigger] d[k] >= 1 by {
            assert(d[k] == ws[k]);
        }
        lemma_collect_ints(d);
        assert(ps.drop_last() =~= int_strs(d));
        let w = ws[ws.len() - 1];
        assert(ps.last() == int_str(w as int));
        assert(int_str(w as int) == dec(w as nat));
        lemma_parse_dec(w as nat, i64::MIN as int, i64::MAX as int);
        assert(parse_integer(ps.last(), i64::MIN as int, i64::MAX as int) == Some(w as int));
        assert(crate::config::collect_warnings(ps.drop_last(), false) == Ok::<Seq<i64>, Seq<char>>(d));
        assert(d.push(w) =~= ws);
        assert(crate::config::collect_warnings(ps, false) == Ok::<Seq<i64>, Seq<char>>(d.push((w as int) as i64)));
    } else {
        assert(ps =~= Seq::<Seq<char>>::empty());
        assert(ws =~= Seq::<i64>::empty());
    }
}

proof fn lemma_values_plain(c: ConfigModel)
    requires
        storable(c),
    ensures
        all_chars(time_value(c.shutdown_time), |ch: char| not_ws(ch)),
        all_chars(join(c.canceled_dates, seq![',']), |ch: char| not_ws(ch)),
        all_chars(warnings_text(c.warning_seconds), |ch: char| not_ws(ch)),
        all_chars(bool_text(c.enabled), |ch: char| not_ws(ch)),
        all_chars(bool_text(c.dry_run), |ch: char| not_ws(ch)),
        all_chars(language_name(c.language), |ch: char| not_ws(ch)),
{
    reveal_strlit("true");
    reveal_strlit("false");
    reveal_strlit("en");
    reveal_strlit("zh-CN");
    let nw = |ch: char| not_ws(ch);
    let v_time = time_value(c.shutdown_time);
    match c.shutdown_time {
        Some(t) => {
            lemma_parse_pad(t.hour as nat, 2, 0, u32::MAX as int);
            lemma_parse_pad(t.minute as nat, 2, 0, u32::MAX as int);
            let ph = pad(t.hour as nat, 2);
            let pm = pad(t.minute as nat, 2);
            assert(v_time == ph + seq![':'] + pm);
            assert forall|i: int| 0 <= i < v_time.len() implies nw(#[trigger] v_time[i]) by {
                if i < ph.len() {
                    assert(is_digit(ph[i]));
                } else if i > ph.len() {
                    assert(v_time[i] == pm[i - ph.len() - 1]);
                    assert(is_digit(pm[i - ph.len() - 1]));
                }
            }
        },
        None => {},
    }
    let cd = c.canceled_dates;
    assert forall|k: int| 0 <= k < cd.len() implies all_chars(#[trigger] cd[k], nw) by {
        lemma_date_chars(cd[k]);
        assert forall|i: int| 0 <= i < cd[k].len() implies nw(#[trigger] cd[k][i]) by {
            assert(date_char(cd[k][i]));
        }
    }
    assert(all_chars(seq![','], nw));
    lemma_join_all(cd, seq![','], nw);
    let ws = c.warning_seconds;
    let wparts = int_strs(ws);
    assert forall|k: int| 0 <= k < wparts.len() implies all_chars(#[trigger] wparts[k], nw) by {
        let w = ws[k];
        assert(w >= 1);
        lemma_dec(w as nat);
        assert(wparts[k] == dec(w as nat));
        assert forall|i: int| 0 <= i < wparts[k].len() implies nw(#[trigger] wparts[k][i]) by {
            assert(is_digit(dec(w as nat)[i]));
        }
    }
    lemma_join_all(wparts, seq![','], nw);
}

/// A line made of a literal and a value with no whitespace holds no newline.
proof fn lemma_line_lacks_newline(lit: Seq<char>, v: Seq<char>)
    requires
        lacks(lit, '\n'),
        all_chars(v, |ch: char| not_ws(ch)),
    ensures
        lacks(lit + v, '\n'),
{
    let l = lit + v;
    assert forall|i: int| 0 <= i < l.len() implies l[i] != '\n' by {
        if i >= lit.len() {
            assert(l[i] == v[i - lit.len()]);
            assert(not_ws(v[i - lit.len()]));
        }
    }
}

/// The written text splits on newlines into its lines and a last empty part.
proof fn lemma_render_lines(c: ConfigModel)
    requires
        storable(c),
    ensures
        split(spec_render(c), '\n') == config_lines(c).push(seq![]),
{
    reveal_strlit("# Managed by daily-poweroff. Edit carefully, or use the CLI.");
    reveal_strlit("enabled=");
    reveal_strlit("time=");
    reveal_strlit("canceled_dates=");
    reveal_strlit("warning_seconds=");
    reveal_strlit("shutdown_command=");
    reveal_strlit("dry_run=");
    reveal_strlit("language=");
    let lines = config_lines(c);
    let all = lines.push(seq![]);
    lemma_lines_text_join(lines);
    lemma_values_plain(c);
    lemma_line_lacks_newline("enabled="@, bool_text(c.enabled));
    lemma_line_lacks_newline("time="@, time_value(c.shutdown_time));
    lemma_line_lacks_newline("canceled_dates="@, join(c.canceled_dates, seq![',']));
    lemma_line_lacks_newline("warning_seconds="@, warnings_text(c.warning_seconds));
    lemma_line_lacks_newline("dry_run="@, bool_text(c.dry_run));
    lemma_line_lacks_newline("language="@, language_name(c.language));
    assert(lacks("shutdown_command="@ + c.shutdown_command, '\n')) by {
        let l = "shutdown_command="@ + c.shutdown_command;
        assert forall|i: int| 0 <= i < l.len() implies l[i] != '\n' by {
            if i >= 17 {
                assert(l[i] == c.shutdown_command[i - 17]);
            }
        }
    }
    assert forall|k: int| 0 <= k < all.len() implies lacks(#[trigger] all[k], '\n') by {
        if k < 8 {
            assert(all[k] == lines[k]);
        }
    }
    lemma_split_join(all, '\n');
}

proof fn lemma_apply_time(c: ConfigModel, d: ConfigModel)
    requires
        storable(c),
    ensures
        apply_line(config_lines(c)[2], 2, d) == Ok::<ConfigModel, Seq<char>>(
            ConfigModel { shutdown_time: c.shutdown_time, ..d },
        ),
{
    reveal_strlit("time=");
    reveal_strlit("time");
    reveal_strlit("enabled");
    lemma_values_plain(c);
    let v_time = time_value(c.shutdown_time);
    assert("time="@ =~= "time"@ + seq!['=']);
    assert(config_lines(c)[2] == "time"@ + seq!['='] + v_time);
    if v_time.len() > 0 {
        assert(not_ws(v_time[0]));
        assert(not_ws(v_time[v_time.len() - 1]));
    }
    lemma_setting_line("time"@, v_time, 2, d);
    match c.shutdown_time {
        Some(t) => {
            lemma_parse_pad(t.hour as nat, 2, 0, u32::MAX as int);
            lemma_parse_pad(t.minute as nat, 2, 0, u32::MAX as int);
            let ph = pad(t.hour as nat, 2);
            let pm = pad(t.minute as nat, 2);
            assert(v_time == ph + seq![':'] + pm);
            assert(v_time[ph.len() as int] == ':');
            assert forall|j: int| 0 <= j < ph.len() implies v_time[j] != ':' by {
                assert(v_time[j] == ph[j]);
                assert(is_digit(ph[j]));
            }
            lemma_first_index_at(v_time, ':', ph.len() as int);
            assert(v_time.take(ph.len() as int) =~= ph);
            assert(v_time.skip(ph.len() + 1 as int) =~= pm);
            assert(spec_parse_time(v_time) == Ok::<TimeOfDay, Seq<char>>(t));
        },
        None => {},
    }
}

proof fn lemma_apply_dates(c: ConfigModel, d: ConfigModel)
    requires
        storable(c),
    ensures
        apply_line(config_lines(c)[3], 3, d) == Ok::<ConfigModel, Seq<char>>(
            ConfigModel { canceled_dates: c.canceled_dates, ..d },
        ),
{
    reveal_strlit("canceled_dates=");
    reveal_strlit("canceled_dates");
    reveal_strlit("enabled");
    reveal_strlit("time");
    lemma_values_plain(c);
    let nw = |ch: char| not_ws(ch);
    let cd = c.canceled_dates;
    let v_dates = join(cd, seq![',']);
    assert("canceled_dates="@ =~= "canceled_dates"@ + seq!['=']);
    assert(config_lines(c)[3] == "canceled_dates"@ + seq!['='] + v_dates);
    if v_dates.len() > 0 {
        assert(not_ws(v_dates[0]));
        assert(not_ws(v_dates[v_dates.len() - 1]));
    }
    lemma_setting_line("canceled_dates"@, v_dates, 3, d);
    assert forall|k: int| 0 <= k < cd.len() implies lacks(#[trigger] cd[k], ',') by {
        lemma_date_chars(cd[k]);
        assert forall|i: int| 0 <= i < cd[k].len() implies cd[k][i] != ',' by {
            assert(date_char(cd[k][i]));
        }
    }
    if cd.len() > 0 {
        lemma_split_join(cd, ',');
    } else {
        lemma_first_index_at(v_dates, ',', 0);
        assert(split(v_dates, ',') =~= seq![Seq::<char>::empty()]);
        assert(seq![Seq::<char>::empty()].drop_last() =~= Seq::<Seq<char>>::empty());
    }
    assert forall|k: int| 0 <= k < cd.len() implies (#[trigger] cd[k]).len() > 0 && trimmed(
        cd[k],
    ) by {
        lemma_date_chars(cd[k]);
        assert(date_char(cd[k][0]));
        assert(date_char(cd[k][cd[k].len() - 1]));
    }
    lemma_nonempty_trimmed_id(cd);
    assert(spec_comma_values(v_dates) == cd);
    lemma_first_date_error_none(cd);
    lemma_insert_all_sorted_id(cd);
}

proof fn lemma_apply_warnings(c: ConfigModel, d: ConfigModel)
    requires
        storable(c),
    ensures
        apply_line(config_lines(c)[4], 4, d) == Ok::<ConfigModel, Seq<char>>(
            ConfigModel { warning_seconds: c.warning_seconds, ..d },
        ),
{
    reveal_strlit("warning_seconds=");
    reveal_strlit("warning_seconds");
    reveal_strlit("enabled");
    reveal_strlit("time");
    reveal_strlit("canceled_dates");
    lemma_values_plain(c);
    let ws = c.warning_seconds;
    let wparts = int_strs(ws);
    let v_warn = warnings_text(ws);
    assert("warning_seconds="@ =~= "warning_seconds"@ + seq!['=']);
    assert(config_lines(c)[4] == "warning_seconds"@ + seq!['='] + v_warn);
    if v_warn.len() > 0 {
        assert(not_ws(v_warn[0]));
        assert(not_ws(v_warn[v_warn.len() - 1]));
    }
    lemma_setting_line("warning_seconds"@, v_warn, 4, d);
    assert forall|k: int| 0 <= k < wparts.len() implies lacks(#[trigger] wparts[k], ',') by {
        lemma_dec(ws[k] as nat);
        assert(wparts[k] == dec(ws[k] as nat));
        assert forall|i: int| 0 <= i < wparts[k].len() implies wparts[k][i] != ',' by {
            assert(is_digit(dec(ws[k] as nat)[i]));
        }
    }
    lemma_split_join(wparts, ',');
    assert forall|k: int| 0 <= k < wparts.len() implies (#[trigger] wparts[k]).len() > 0
        && trimmed(wparts[k]) by {
        lemma_dec(ws[k] as nat);
        assert(wparts[k] == dec(ws[k] as nat));
        assert(is_digit(wparts[k][0]));
        assert(is_digit(wparts[k][wparts[k].len() - 1]));
    }
    lemma_nonempty_trimmed_id(wparts);
    lemma_collect_ints(ws);
    lemma_norm_desc(ws);
    assert(spec_parse_warning_seconds(v_warn) == Ok::<Seq<i64>, Seq<char>>(ws));
}

proof fn lemma_apply_enabled(c: ConfigModel, d: ConfigModel)
    requires
        storable(c),
    ensures
        apply_line(config_lines(c)[1], 1, d) == Ok::<ConfigModel, Seq<char>>(
            ConfigModel { enabled: c.enabled, ..d },
        ),
{
    reveal_strlit("enabled=");
    reveal_strlit("enabled");
    reveal_strlit("true");
    reveal_strlit("false");
    reveal_strlit("yes");
    reveal_strlit("1");
    reveal_strlit("on");
    lemma_values_plain(c);
    let v = bool_text(c.enabled);
    assert(not_ws(v[0]) && not_ws(v[v.len() - 1]));
    assert("enabled="@ =~= "enabled"@ + seq!['=']);
    assert(config_lines(c)[1] == "enabled"@ + seq!['='] + v);
    lemma_setting_line("enabled"@, v, 1, d);
}

proof fn lemma_apply_command(c: ConfigModel, d: ConfigModel)
    requires
        storable(c),
    ensures
        apply_line(config_lines(c)[5], 5, d) == Ok::<ConfigModel, Seq<char>>(
            ConfigModel { shutdown_command: c.shutdown_command, ..d },
        ),
{
    reveal_strlit("shutdown_command=");
    reveal_strlit("enabled");
    reveal_strlit("time");
    reveal_strlit("canceled_dates");
    reveal_strlit("warning_seconds");
    reveal_strlit("shutdown_command");
    assert("shutdown_command="@ =~= "shutdown_command"@ + seq!['=']);
    assert(config_lines(c)[5] == "shutdown_command"@ + seq!['='] + c.shutdown_command);
    lemma_setting_line("shutdown_command"@, c.shutdown_command, 5, d);
}

proof fn lemma_apply_dry_run(c: ConfigModel, d: ConfigModel)
    requires
        storable(c),
    ensures
        apply_line(config_lines(c)[6], 6, d) == Ok::<ConfigModel, Seq<char>>(
            ConfigModel { dry_run: c.dry_run, ..d },
        ),
{
    reveal_strlit("dry_run=");
    reveal_strlit("enabled");
    reveal_strlit("time");
    reveal_strlit("canceled_dates");
    reveal_strlit("warning_seconds");
    reveal_strlit("shutdown_command");
    reveal_strlit("dry_run");
    reveal_strlit("true");
    reveal_strlit("false");
    reveal_strlit("yes");
    reveal_strlit("1");
    reveal_strlit("on");
    lemma_values_plain(c);
    let v = bool_text(c.dry_run);
    assert(not_ws(v[0]) && not_ws(v[v.len() - 1]));
    assert("dry_run="@ =~= "dry_run"@ + seq!['=']);
    assert(config_lines(c)[6] == "dry_run"@ + seq!['='] + v);
    lemma_setting_line("dry_run"@, v, 6, d);
}

proof fn lemma_apply_language(c: ConfigModel, d: ConfigModel)
    requires
        storable(c),
    ensures
        apply_line(config_lines(c)[7], 7, d) == Ok::<ConfigModel, Seq<char>>(
            ConfigModel { language: c.language, ..d },
        ),
{
    reveal_strlit("language=");
    reveal_strlit("enabled");
    reveal_strlit("time");
    reveal_strlit("canceled_dates");
    reveal_strlit("warning_seconds");
    reveal_strlit("shutdown_command");
    reveal_strlit("dry_run");
    reveal_strlit("language");
    reveal_strlit("en");
    reveal_strlit("en-US");
    reveal_strlit("zh-CN");
    lemma_values_plain(c);
    let v = language_name(c.language);
    assert(not_ws(v[0]) && not_ws(v[v.len() - 1]));
    assert("language="@ =~= "language"@ + seq!['=']);
    assert(config_lines(c)[7] == "language"@ + seq!['='] + v);
    lemma_setting_line("language"@, v, 7, d);
}

/// Writing a storable configuration and reading the text back gives the same configuration.
pub proof fn lemma_render_parse(c: ConfigModel)
    requires
        storable(c),
    ensures
        spec_parse_config(spec_render(c)) == Ok::<ConfigModel, Seq<char>>(c),
{
    let lines = config_lines(c);
    let all = lines.push(seq![]);
    lemma_render_lines(c);
    let d0 = default_model();
    let c1 = ConfigModel { enabled: c.enabled, ..d0 };
    let c2 = ConfigModel { shutdown_time: c.shutdown_time, ..c1 };
    let c3 = ConfigModel { canceled_dates: c.canceled_dates, ..c2 };
    let c4 = ConfigModel { warning_seconds: c.warning_seconds, ..c3 };
    let c5 = ConfigModel { shutdown_command: c.shutdown_command, ..c4 };
    let c6 = ConfigModel { dry_run: c.dry_run, ..c5 };
    let c7 = ConfigModel { language: c.language, ..c6 };
    assert(all[0] == header_line());
    assert(trim(header_line()) == header_line() && header_line()[0] == '#') by {
        reveal_strlit("# Managed by daily-poweroff. Edit carefully, or use the CLI.");
        lemma_trim_fixed(header_line());
    }
    assert(apply_line(all[0], 0, d0) == Ok::<ConfigModel, Seq<char>>(d0));
    lemma_apply_enabled(c, d0);
    lemma_apply_command(c, c4);
    lemma_apply_dry_run(c, c5);
    lemma_apply_language(c, c6);
    lemma_apply_time(c, c1);
    lemma_apply_dates(c, c2);
    lemma_apply_warnings(c, c3);
    assert(all[1] == lines[1] && all[2] == lines[2] && all[3] == lines[3] && all[4] == lines[4]);
    assert(all[5] == lines[5] && all[6] == lines[6] && all[7] == lines[7]);
    assert(all[8] == Seq::<char>::empty());
    assert(apply_line(all[8], 8, c7) == Ok::<ConfigModel, Seq<char>>(c7));
    assert(apply_lines(all, 9, c7) == Ok::<ConfigModel, Seq<char>>(c7));
    assert(apply_lines(all, 8, c7) == Ok::<ConfigModel, Seq<char>>(c7));
    assert(apply_lines(all, 7, c6) == Ok::<ConfigModel, Seq<char>>(c7));
    assert(apply_lines(all, 6, c5) == Ok::<ConfigModel, Seq<char>>(c7));
    assert(apply_lines(all, 5, c4) == Ok::<ConfigModel, Seq<char>>(c7));
    assert(apply_lines(all, 4, c3) == Ok::<ConfigModel, Seq<char>>(c7));
    assert(apply_lines(all, 3, c2) == Ok::<ConfigModel, Seq<char>>(c7));
    assert(apply_lines(all, 2, c1) == Ok::<ConfigModel, Seq<char>>(c7));
    assert(apply_lines(all, 1, d0) == Ok::<ConfigModel, Seq<char>>(c7));
    assert(apply_lines(all, 0, d0) == Ok::<ConfigModel, Seq<char>>(c7));
    lemma_norm_desc(c.warning_seconds);
    assert(c7 == c);
}

/// A valid time written `HH:MM` parses back to itself.
pub proof fn lemma_time_roundtrip(t: TimeOfDay)
    requires
        t.valid(),
    ensures
        spec_parse_time(time_text(t)) == Ok::<TimeOfDay, Seq<char>>(t),
{
    let v = time_text(t);
    lemma_parse_pad(t.hour as nat, 2, 0, u32::MAX as int);
    lemma_parse_pad(t.minute as nat, 2, 0, u32::MAX as int);
    let ph = pad(t.hour as nat, 2);
    let pm = pad(t.minute as nat, 2);
    assert(v == ph + seq![':'] + pm);
    assert(v[ph.len() as int] == ':');
    assert forall|j: int| 0 <= j < ph.len() implies v[j] != ':' by {
        assert(v[j] == ph[j]);
        assert(is_digit(ph[j]));
    }
    lemma_first_index_at(v, ':', ph.len() as int);
    assert(v.take(ph.len() as int) =~= ph);
    assert(v.skip(ph.len() + 1 as int) =~= pm);
}

// ---------------------------------------------------------------------------
// What is read can be written
// ---------------------------------------------------------------------------

proof fn lemma_collect_positive(parts: Seq<Seq<char>>)
    ensures
        collect_warnings(parts, false) matches Ok(l) ==> forall|k: int|
            0 <= k < l.len() ==> #[trigger] l[k] >= 1,
    decreases parts.len(),
{
    if parts.len() > 0 {
        lemma_collect_positive(parts.drop_last());
        match collect_warnings(parts.drop_last(), false) {
            Ok(l0) => {
                if let Ok(l) = collect_warnings(parts, false) {
                    assert forall|k: int| 0 <= k < l.len() implies #[trigger] l[k] >= 1 by {
                        if k < l0.len() {
                            assert(l[k] == l0[k]);
                        }
                    }
                }
            },
            Err(_) => {},
        }
    }
}

proof fn lemma_first_date_error_all(ds: Seq<Seq<char>>)
    requires
        first_date_error(ds) is None,
    ensures
        forall|k: int| 0 <= k < ds.len() ==> spec_parse_date(#[trigger] ds[k]) is Ok,
    decreases ds.len(),
{
    if ds.len() > 0 {
        let d = ds.drop_last();
        lemma_first_date_error_all(d);
        assert forall|k: int| 0 <= k < ds.len() implies spec_parse_date(#[trigger] ds[k]) is Ok by {
            if k < d.len() {
                assert(ds[k] == d[k]);
            }
        }
    }
}

/// A normalised warning list keeps the property "at least one second".
proof fn lemma_norm_positive(w: Seq<i64>)
    requires
        forall|k: int| 0 <= k < w.len() ==> #[trigger] w[k] >= 1,
    ensures
        forall|k: int|
            0 <= k < crate::config::norm_desc(w).len() ==> #[trigger] crate::config::norm_desc(w)[k]
                >= 1,
{
    lemma_norm_desc(w);
    let n = crate::config::norm_desc(w);
    assert forall|k: int| 0 <= k < n.len() implies #[trigger] n[k] >= 1 by {
        assert(n.to_set().contains(n[k]));
        assert(w.to_set().contains(n[k]));
        let j = choose|j: int| 0 <= j < w.len() && w[j] == n[k];
    }
}

/// Setting a key to a trimmed value without newlines keeps a configuration storable.
proof fn lemma_apply_setting_storable(key: Seq<char>, value: Seq<char>, idx: nat, c: ConfigModel)
    requires
        storable(c),
        lacks(value, '\n'),
        trimmed(value),
    ensures
        apply_setting(key, value, idx, c) matches Ok(c2) ==> storable(c2),
{
    if key == "canceled_dates"@ {
        let ds = spec_comma_values(value);
        if first_date_error(ds) is None {
            lemma_first_date_error_all(ds);
            lemma_insert_all(seq![], ds);
            let cd = insert_all(seq![], ds);
            assert forall|k: int| 0 <= k < cd.len() implies spec_parse_date(#[trigger] cd[k]) is Ok by {
                assert(cd.contains(cd[k]));
                assert(!Seq::<Seq<char>>::empty().contains(cd[k]));
                assert(ds.contains(cd[k]));
                let j = choose|j: int| 0 <= j < ds.len() && ds[j] == cd[k];
            }
        }
    } else if key == "warning_seconds"@ {
        let parts = spec_comma_values(value);
        lemma_collect_positive(parts);
        if let Ok(l) = collect_warnings(parts, false) {
            lemma_norm_desc(l);
            lemma_norm_positive(l);
        }
    } else if key == "time"@ {
    }
}

/// Applying a line without newlines keeps a configuration storable.
proof fn lemma_apply_line_storable(raw: Seq<char>, idx: nat, c: ConfigModel)
    requires
        storable(c),
        lacks(raw, '\n'),
    ensures
        apply_line(raw, idx, c) matches Ok(c2) ==> storable(c2),
{
    let line = trim(raw);
    lemma_trim_trimmed(raw, '\n');
    if !(line.len() == 0 || line[0] == '#') {
        if let Some((k, v)) = split_once(line, '=') {
            let i = crate::text::first_index(line, '=');
            assert(v == line.subrange(i + 1 as int, line.len() as int));
            lemma_sub_lacks(line, '\n', i + 1 as int, line.len() as int);
            lemma_trim_trimmed(v, '\n');
            lemma_apply_setting_storable(trim(k), trim(v), idx, c);
        }
    }
}

proof fn lemma_apply_lines_storable(lines: Seq<Seq<char>>, i: nat, c: ConfigModel)
    requires
        storable(c),
        forall|k: int| 0 <= k < lines.len() ==> lacks(#[trigger] lines[k], '\n'),
    ensures
        apply_lines(lines, i, c) matches Ok(c2) ==> storable(c2),
    decreases lines.len() - i,
{
    if i < lines.len() {
        lemma_apply_line_storable(lines[i as int], i, c);
        if let Ok(c1) = apply_line(lines[i as int], i, c) {
            lemma_apply_lines_storable(lines, i + 1, c1);
        }
    }
}

/// Every configuration that is read from a file can be written and read back:
/// writing what was read, and reading it again, gives the same configuration.
pub proof fn lemma_parse_render_parse(text: Seq<char>)
    ensures
        spec_parse_config(text) matches Ok(c) ==> storable(c) && spec_parse_config(
            spec_render(c),
        ) == Ok::<ConfigModel, Seq<char>>(c),
{
    let d0 = default_model();
    reveal_strlit("systemctl poweroff");
    assert(storable(d0)) by {
        let w = default_warnings();
        assert(crate::config::strictly_desc(w));
        assert forall|k: int| 0 <= k < w.len() implies #[trigger] w[k] >= 1 by {}
        assert(sorted(d0.canceled_dates));
        assert(lacks(d0.shutdown_command, '\n'));
    }
    let lines = split(text, '\n');
    lemma_split_lacks(text, '\n');
    lemma_apply_lines_storable(lines, 0, d0);
    if let Ok(c) = spec_parse_config(text) {
        let c0 = apply_lines(lines, 0, d0)->Ok_0;
        lemma_norm_desc(c0.warning_seconds);
        lemma_norm_positive(c0.warning_seconds);
        assert(storable(c));
        lemma_render_parse(c);
    }
}

} // verus!
