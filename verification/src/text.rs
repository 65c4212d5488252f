//! Character-level text handling: whitespace trimming, splitting on a
//! separator, decimal integers, and conversion between `&str`, `String`
//! and `Vec<char>`.
use vstd::prelude::*;

verus! {

/// Appends one character to a `String`.
pub assume_specification[ String::push ](s: &mut String, ch: char)
    ensures
        final(s)@ == old(s)@.push(ch),
;

// ---------------------------------------------------------------------------
// Whitespace and trimming
// ---------------------------------------------------------------------------

/// The Unicode `White_Space` characters, the set that `char::is_whitespace` accepts.
pub open spec fn is_ws(c: char) -> bool {
    ||| ('\t' <= c && c <= '\r')
    ||| c == ' '
    ||| c == '\u{85}'
    ||| c == '\u{a0}'
    ||| c == '\u{1680}'
    ||| ('\u{2000}' <= c && c <= '\u{200a}')
    ||| c == '\u{2028}'
    ||| c == '\u{2029}'
    ||| c == '\u{202f}'
    ||| c == '\u{205f}'
    ||| c == '\u{3000}'
}

pub fn is_whitespace(c: char) -> (b: bool)
    ensures
        b == is_ws(c),
{
    ('\t' <= c && c <= '\r') || c == ' ' || c == '\u{85}' || c == '\u{a0}' || c == '\u{1680}'
        || ('\u{2000}' <= c && c <= '\u{200a}') || c == '\u{2028}' || c == '\u{2029}' || c
        == '\u{202f}' || c == '\u{205f}' || c == '\u{3000}'
}

/// `s` without its leading whitespace.
pub open spec fn trim_start(s: Seq<char>) -> Seq<char>
    decreases s.len(),
{
    if s.len() > 0 && is_ws(s[0]) {
        trim_start(s.drop_first())
    } else {
        s
    }
}

/// `s` without its trailing whitespace.
pub open spec fn trim_end(s: Seq<char>) -> Seq<char>
    decreases s.len(),
{
    if s.len() > 0 && is_ws(s.last()) {
        trim_end(s.drop_last())
    } else {
        s
    }
}

/// `s` without leading and trailing whitespace, as `str::trim` returns it.
pub open spec fn trim(s: Seq<char>) -> Seq<char> {
    trim_end(trim_start(s))
}

/// A sequence that starts and ends with no whitespace is its own trim.
pub proof fn lemma_trim_fixed(s: Seq<char>)
    requires
        s.len() == 0 || (!is_ws(s[0]) && !is_ws(s.last())),
    ensures
        trim(s) == s,
{
}

/// Trimming the start drops a prefix, and leaves a sequence that is empty
/// or starts with a character that is not whitespace.
pub proof fn lemma_trim_start_skip(s: Seq<char>) -> (k: int)
    ensures
        0 <= k <= s.len(),
        trim_start(s) == s.skip(k),
        trim_start(s).len() > 0 ==> !is_ws(trim_start(s)[0]),
    decreases s.len(),
{
    if s.len() > 0 && is_ws(s[0]) {
        let k = lemma_trim_start_skip(s.drop_first());
        assert(s.drop_first().skip(k) =~= s.skip(k + 1));
        k + 1
    } else {
        assert(s.skip(0) =~= s);
        0
    }
}

/// Trimming the end drops a suffix, and leaves a sequence that is empty or
/// ends with a character that is not whitespace.
pub proof fn lemma_trim_end_take(s: Seq<char>) -> (k: int)
    ensures
        0 <= k <= s.len(),
        trim_end(s) == s.take(k),
        k > 0 ==> !is_ws(s[k - 1]),
    decreases s.len(),
{
    if s.len() > 0 && is_ws(s.last()) {
        let k = lemma_trim_end_take(s.drop_last());
        assert(s.drop_last().take(k) =~= s.take(k));
        k
    } else {
        assert(s.take(s.len() as int) =~= s);
        s.len() as int
    }
}

/// A trimmed sequence has no whitespace at its ends and keeps only
/// characters of the sequence it trims.
pub proof fn lemma_trim_trimmed(s: Seq<char>, c: char)
    ensures
        trimmed(trim(s)),
        lacks(s, c) ==> lacks(trim(s), c),
{
    let a = lemma_trim_start_skip(s);
    let t = trim_start(s);
    let b = lemma_trim_end_take(t);
    let r = trim(s);
    assert(r == t.take(b));
    if b > 0 {
        assert(r[0] == t[0]);
        assert(r.last() == t[b - 1]);
    }
    if lacks(s, c) {
        assert forall|j: int| 0 <= j < r.len() implies r[j] != c by {
            assert(r[j] == t[j]);
            assert(t[j] == s[a + j]);
        }
    }
}

/// The pieces of a sequence without `c` are without `c`.
pub proof fn lemma_sub_lacks(s: Seq<char>, c: char, i: int, j: int)
    requires
        lacks(s, c),
        0 <= i <= j <= s.len(),
    ensures
        lacks(s.subrange(i, j), c),
{
    assert forall|k: int| 0 <= k < j - i implies s.subrange(i, j)[k] != c by {
        assert(s.subrange(i, j)[k] == s[i + k]);
    }
}

// ---------------------------------------------------------------------------
// Searching and splitting
// ---------------------------------------------------------------------------

/// The index of the first `c` in `s`, or `s.len()` when `s` holds no `c`.
pub open spec fn first_index(s: Seq<char>, c: char) -> nat
    decreases s.len(),
{
    if s.len() == 0 {
        0
    } else if s[0] == c {
        0
    } else {
        1 + first_index(s.drop_first(), c)
    }
}

pub proof fn lemma_first_index(s: Seq<char>, c: char)
    ensures
        first_index(s, c) <= s.len(),
        first_index(s, c) < s.len() ==> s[first_index(s, c) as int] == c,
        forall|j: int| 0 <= j < first_index(s, c) ==> s[j] != c,
    decreases s.len(),
{
    if s.len() > 0 && s[0] != c {
        lemma_first_index(s.drop_first(), c);
        assert forall|j: int| 0 <= j < first_index(s, c) implies s[j] != c by {
            if j > 0 {
                assert(s[j] == s.drop_first()[j - 1]);
            }
        }
    }
}

/// The first index is characterised by the characters before it.
pub proof fn lemma_first_index_at(s: Seq<char>, c: char, i: int)
    requires
        0 <= i <= s.len(),
        i < s.len() ==> s[i] == c,
        forall|j: int| 0 <= j < i ==> s[j] != c,
    ensures
        first_index(s, c) == i,
    decreases s.len(),
{
    if s.len() > 0 && i > 0 {
        assert(s[0] != c);
        lemma_first_index_at(s.drop_first(), c, i - 1);
    }
}

/// A sequence that does not contain `c`.
pub open spec fn lacks(s: Seq<char>, c: char) -> bool {
    forall|j: int| 0 <= j < s.len() ==> s[j] != c
}

/// The parts of `s` between occurrences of `c`, as `str::split` yields them.
pub open spec fn split(s: Seq<char>, c: char) -> Seq<Seq<char>>
    decreases s.len(),
{
    let i = first_index(s, c);
    if i >= s.len() {
        seq![s]
    } else {
        seq![s.take(i as int)] + split(s.skip(i + 1 as int), c)
    }
}

/// No part of a split holds the separator.
pub proof fn lemma_split_lacks(s: Seq<char>, c: char)
    ensures
        forall|k: int| 0 <= k < split(s, c).len() ==> lacks(#[trigger] split(s, c)[k], c),
    decreases s.len(),
{
    let i = first_index(s, c);
    lemma_first_index(s, c);
    if i >= s.len() {
        assert(lacks(s, c));
    } else {
        let rest = s.skip(i + 1 as int);
        lemma_split_lacks(rest, c);
        let sp = split(s, c);
        assert forall|k: int| 0 <= k < sp.len() implies lacks(#[trigger] sp[k], c) by {
            if k == 0 {
                assert(sp[0] == s.take(i as int));
                assert forall|j: int| 0 <= j < sp[0].len() implies sp[0][j] != c by {
                    assert(sp[0][j] == s[j]);
                }
            } else {
                assert(sp[k] == split(rest, c)[k - 1]);
            }
        }
    }
}

/// `s` cut at its first `c`, as `str::split_once` does.
pub open spec fn split_once(s: Seq<char>, c: char) -> Option<(Seq<char>, Seq<char>)> {
    let i = first_index(s, c);
    if i < s.len() {
        Some((s.take(i as int), s.skip(i + 1 as int)))
    } else {
        None
    }
}

/// The parts joined with `sep` between each two of them.
pub open spec fn join(parts: Seq<Seq<char>>, sep: Seq<char>) -> Seq<char>
    decreases parts.len(),
{
    if parts.len() == 0 {
        seq![]
    } else if parts.len() == 1 {
        parts[0]
    } else {
        parts[0] + sep + join(parts.drop_first(), sep)
    }
}

/// Splitting what was joined on a separator that no part holds gives the parts back.
pub proof fn lemma_split_join(parts: Seq<Seq<char>>, c: char)
    requires
        parts.len() >= 1,
        forall|k: int| 0 <= k < parts.len() ==> lacks(#[trigger] parts[k], c),
    ensures
        split(join(parts, seq![c]), c) == parts,
    decreases parts.len(),
{
    let s = join(parts, seq![c]);
    if parts.len() == 1 {
        lemma_first_index_at(s, c, s.len() as int);
    } else {
        let p0 = parts[0];
        let rest = parts.drop_first();
        assert forall|k: int| 0 <= k < rest.len() implies lacks(#[trigger] rest[k], c) by {
            assert(rest[k] == parts[k + 1]);
        }
        lemma_split_join(rest, c);
        assert(lacks(parts[0], c));
        assert(s[p0.len() as int] == c);
        lemma_first_index_at(s, c, p0.len() as int);
        assert(s.take(p0.len() as int) =~= p0);
        assert(s.skip(p0.len() + 1 as int) =~= join(rest, seq![c]));
        assert(split(s, c) =~= seq![p0] + rest);
    }
}

/// Joining one more part adds the separator and the part at the end.
pub proof fn lemma_join_push(parts: Seq<Seq<char>>, sep: Seq<char>, x: Seq<char>)
    ensures
        join(parts.push(x), sep) == if parts.len() == 0 {
            x
        } else {
            join(parts, sep) + sep + x
        },
    decreases parts.len(),
{
    let p = parts.push(x);
    if parts.len() == 0 {
    } else if parts.len() == 1 {
        assert(p.drop_first() =~= seq![x]);
        assert(p[0] == parts[0]);
        assert(join(p.drop_first(), sep) == x);
        assert(join(p, sep) == parts[0] + sep + x);
        assert(join(parts, sep) == parts[0]);
    } else {
        assert(p.drop_first() =~= parts.drop_first().push(x));
        lemma_join_push(parts.drop_first(), sep, x);
        assert(p[0] == parts[0]);
        assert(join(p, sep) == parts[0] + sep + join(p.drop_first(), sep));
        assert(join(parts, sep) == parts[0] + sep + join(parts.drop_first(), sep));
        assert(join(p, sep) =~= join(parts, sep) + sep + x);
    }
}

/// Every character of `s` satisfies `p`.
pub open spec fn all_chars(s: Seq<char>, p: spec_fn(char) -> bool) -> bool {
    forall|i: int| 0 <= i < s.len() ==> p(#[trigger] s[i])
}

/// Starts and ends with a character that is not whitespace, or is empty:
/// a sequence that trimming leaves as it is.
pub open spec fn trimmed(s: Seq<char>) -> bool {
    s.len() == 0 || (!is_ws(s[0]) && !is_ws(s.last()))
}

/// Joining parts whose characters all satisfy `p`, with a separator whose
/// characters do too, gives characters that all satisfy `p`.
pub proof fn lemma_join_all(parts: Seq<Seq<char>>, sep: Seq<char>, p: spec_fn(char) -> bool)
    requires
        all_chars(sep, p),
        forall|k: int| 0 <= k < parts.len() ==> all_chars(#[trigger] parts[k], p),
    ensures
        all_chars(join(parts, sep), p),
    decreases parts.len(),
{
    if parts.len() > 1 {
        let rest = parts.drop_first();
        assert forall|k: int| 0 <= k < rest.len() implies all_chars(#[trigger] rest[k], p) by {
            assert(rest[k] == parts[k + 1]);
        }
        lemma_join_all(rest, sep, p);
        assert(all_chars(parts[0], p));
        let j = join(parts, sep);
        assert forall|i: int| 0 <= i < j.len() implies p(#[trigger] j[i]) by {
            let a = parts[0];
            if i < a.len() {
                assert(j[i] == a[i]);
            } else if i < a.len() + sep.len() {
                assert(j[i] == sep[i - a.len()]);
            } else {
                assert(j[i] == join(rest, sep)[i - a.len() - sep.len()]);
            }
        }
    } else if parts.len() == 1 {
        assert(all_chars(parts[0], p));
    }
}

/// Joining the parts of a split on the same separator gives the text back.
pub proof fn lemma_join_split(s: Seq<char>, c: char)
    ensures
        join(split(s, c), seq![c]) == s,
    decreases s.len(),
{
    let i = first_index(s, c);
    lemma_first_index(s, c);
    if i < s.len() {
        let rest = s.skip(i + 1 as int);
        lemma_join_split(rest, c);
        let sp = split(s, c);
        assert(sp == seq![s.take(i as int)] + split(rest, c));
        let sr = split(rest, c);
        assert(sr.len() >= 1) by {
            reveal_with_fuel(split, 1);
        }
        assert(sp.drop_first() =~= sr);
        assert(join(sp, seq![c]) == s.take(i as int) + seq![c] + join(sr, seq![c]));
        assert(s =~= s.take(i as int) + seq![c] + rest);
    }
}

// ---------------------------------------------------------------------------
// Decimal integers
// ---------------------------------------------------------------------------

pub open spec fn is_digit(c: char) -> bool {
    '0' <= c && c <= '9'
}

pub open spec fn all_digits(s: Seq<char>) -> bool {
    forall|i: int| 0 <= i < s.len() ==> is_digit(#[trigger] s[i])
}

pub open spec fn digit_char(d: nat) -> char {
    (d + 48) as char
}

/// The value of a string of decimal digits.
pub open spec fn digits_value(s: Seq<char>) -> nat
    decreases s.len(),
{
    if s.len() == 0 {
        0
    } else {
        (digits_value(s.drop_last()) * 10 + (s.last() as int - 48)) as nat
    }
}

/// The decimal digits of `n`, without leading zeros.
pub open spec fn dec(n: nat) -> Seq<char>
    decreases n,
{
    if n < 10 {
        seq![digit_char(n)]
    } else {
        dec(n / 10).push(digit_char(n % 10))
    }
}

/// An integer in decimal, with a leading `-` when it is negative, as `to_string` writes it.
pub open spec fn int_str(v: int) -> Seq<char> {
    if v < 0 {
        seq!['-'] + dec((-v) as nat)
    } else {
        dec(v as nat)
    }
}

/// `k` zeros.
pub open spec fn zeros(k: int) -> Seq<char> {
    Seq::new(if k > 0 { k as nat } else { 0 }, |i: int| '0')
}

/// `n` in decimal, padded with zeros on the left to at least `w` characters.
pub open spec fn pad(n: nat, w: nat) -> Seq<char> {
    zeros(w - dec(n).len()) + dec(n)
}

/// `v` in decimal with zero padding to width `w`, the sign counted in the
/// width, as the format `{:0w}` writes it.
pub open spec fn pad_int(v: int, w: nat) -> Seq<char> {
    if v < 0 {
        seq!['-'] + zeros(w - 1 - dec((-v) as nat).len()) + dec((-v) as nat)
    } else {
        pad(v as nat, w)
    }
}

pub proof fn lemma_digit_char(d: nat)
    requires
        d < 10,
    ensures
        digit_char(d) as int == d + 48,
        is_digit(digit_char(d)),
{
}

pub proof fn lemma_dec(n: nat)
    ensures
        dec(n).len() >= 1,
        all_digits(dec(n)),
        digits_value(dec(n)) == n,
        n < 10 ==> dec(n).len() == 1,
        n >= 10 ==> dec(n).len() >= 2,
        dec(n)[0] != '0' || n == 0,
    decreases n,
{
    if n < 10 {
        lemma_digit_char(n);
        let s = seq![digit_char(n)];
        assert(s.drop_last() =~= Seq::<char>::empty());
        assert(digits_value(s.drop_last()) == 0);
        assert(s.last() == digit_char(n));
    } else {
        lemma_dec(n / 10);
        let d = dec(n);
        assert(d.drop_last() =~= dec(n / 10));
        assert(d.last() == digit_char(n % 10));
        lemma_digit_char((n % 10) as nat);
        assert((n / 10) * 10 + n % 10 == n);
        assert(digits_value(d) == digits_value(dec(n / 10)) * 10 + (d.last() as int - 48));
        assert(d[0] == dec(n / 10)[0]);
    }
}

/// The value of a sign and digits, with `+` always allowed and `-` only where `signed`.
pub open spec fn signed_value(s: Seq<char>, signed: bool) -> Option<int> {
    if s.len() == 0 {
        None
    } else if s[0] == '+' || (signed && s[0] == '-') {
        let m = s.drop_first();
        if m.len() > 0 && all_digits(m) {
            if s[0] == '-' {
                Some(-digits_value(m))
            } else {
                Some(digits_value(m) as int)
            }
        } else {
            None
        }
    } else if all_digits(s) {
        Some(digits_value(s) as int)
    } else {
        None
    }
}

/// What `str::parse` gives for an integer type whose range is `min..=max`:
/// an optional sign (`-` only for signed types), then one or more ASCII
/// digits, whose value must lie in the range.
pub open spec fn parse_integer(s: Seq<char>, min: int, max: int) -> Option<int> {
    match signed_value(s, min < 0) {
        Some(v) => if min <= v && v <= max {
            Some(v)
        } else {
            None
        },
        None => None,
    }
}

proof fn lemma_zeros_prefix(k: int, s: Seq<char>)
    requires
        all_digits(s),
    ensures
        all_digits(zeros(k) + s),
        digits_value(zeros(k) + s) == digits_value(s),
    decreases s.len() + (if k > 0 {
        k
    } else {
        0
    }),
{
    let z = zeros(k);
    let t = z + s;
    if s.len() > 0 {
        lemma_zeros_prefix(k, s.drop_last());
        assert(t.drop_last() =~= z + s.drop_last());
        assert(t.last() == s.last());
    } else if k > 0 {
        lemma_zeros_prefix(k - 1, s);
        assert(t.drop_last() =~= zeros(k - 1) + s);
        assert(t.last() == '0');
    } else {
        assert(t =~= Seq::<char>::empty());
    }
}

/// A zero-padded number parses back to itself.
pub proof fn lemma_parse_pad(n: nat, w: nat, min: int, max: int)
    requires
        min <= 0,
        n <= max,
    ensures
        parse_integer(pad(n, w), min, max) == Some(n as int),
        all_digits(pad(n, w)),
        pad(n, w).len() >= 1,
{
    lemma_dec(n);
    lemma_zeros_prefix(w - dec(n).len(), dec(n));
    let p = pad(n, w);
    assert(is_digit(p[0]));
}

pub proof fn lemma_parse_dec(n: nat, min: int, max: int)
    requires
        min <= n <= max,
    ensures
        parse_integer(dec(n), min, max) == Some(n as int),
{
    lemma_dec(n);
    assert(is_digit(dec(n)[0]));
}

// ---------------------------------------------------------------------------
// Executable helpers
// ---------------------------------------------------------------------------

/// The characters of a string slice.
pub fn chars_of(s: &str) -> (v: Vec<char>)
    ensures
        v@ == s@,
{
    let n = s.unicode_len();
    let mut v: Vec<char> = Vec::new();
    let mut i: usize = 0;
    while i < n
        invariant
            n == s@.len(),
            i <= n,
            v@ == s@.take(i as int),
        decreases n - i,
    {
        v.push(s.get_char(i));
        i = i + 1;
        assert(v@ =~= s@.take(i as int));
    }
    assert(v@ =~= s@);
    v
}

/// A `String` holding the given characters.
pub fn string_of(v: &[char]) -> (s: String)
    ensures
        s@ == v@,
{
    let mut s = String::new();
    let mut i: usize = 0;
    while i < v.len()
        invariant
            i <= v@.len(),
            s@ == v@.take(i as int),
        decreases v@.len() - i,
    {
        s.push(v[i]);
        i = i + 1;
        assert(s@ =~= v@.take(i as int));
    }
    assert(s@ =~= v@);
    s
}

/// The characters `v[lo..hi]`.
pub fn sub_chars(v: &[char], lo: usize, hi: usize) -> (r: Vec<char>)
    requires
        lo <= hi <= v@.len(),
    ensures
        r@ == v@.subrange(lo as int, hi as int),
{
    let mut r: Vec<char> = Vec::new();
    let mut i: usize = lo;
    while i < hi
        invariant
            lo <= i <= hi <= v@.len(),
            r@ == v@.subrange(lo as int, i as int),
        decreases hi - i,
    {
        r.push(v[i]);
        i = i + 1;
        assert(r@ =~= v@.subrange(lo as int, i as int));
    }
    r
}

/// Whether the characters `v` spell out the string `s`.
pub fn chars_eq(v: &[char], s: &str) -> (b: bool)
    ensures
        b == (v@ == s@),
{
    let n = s.unicode_len();
    if v.len() != n {
        return false;
    }
    let mut i: usize = 0;
    while i < n
        invariant
            n == s@.len(),
            n == v@.len(),
            i <= n,
            forall|j: int| 0 <= j < i ==> v@[j] == s@[j],
        decreases n - i,
    {
        if v[i] != s.get_char(i) {
            return false;
        }
        i = i + 1;
    }
    assert(v@ =~= s@);
    true
}

/// Whether two character sequences are equal.
pub fn seq_eq(a: &[char], b: &[char]) -> (r: bool)
    ensures
        r == (a@ == b@),
{
    if a.len() != b.len() {
        return false;
    }
    let mut i: usize = 0;
    while i < a.len()
        invariant
            a@.len() == b@.len(),
            i <= a@.len(),
            forall|j: int| 0 <= j < i ==> a@[j] == b@[j],
        decreases a@.len() - i,
    {
        if a[i] != b[i] {
            return false;
        }
        i = i + 1;
    }
    assert(a@ =~= b@);
    true
}

/// Whether two strings are equal.
pub fn str_eq(a: &str, b: &str) -> (r: bool)
    ensures
        r == (a@ == b@),
{
    let va = chars_of(a);
    chars_eq(va.as_slice(), b)
}

/// The characters of `v` without leading and trailing whitespace.
pub fn trim_chars(v: &[char]) -> (r: Vec<char>)
    ensures
        r@ == trim(v@),
{
    let n = v.len();
    let mut lo: usize = 0;
    assert(v@.subrange(0, n as int) =~= v@);
    while lo < n && is_whitespace(v[lo])
        invariant
            n == v@.len(),
            lo <= n,
            trim_start(v@) == trim_start(v@.subrange(lo as int, n as int)),
        decreases n - lo,
    {
        let ghost s = v@.subrange(lo as int, n as int);
        assert(s.drop_first() =~= v@.subrange(lo + 1, n as int));
        lo = lo + 1;
    }
    let ghost t = v@.subrange(lo as int, n as int);
    assert(trim_start(t) == t);
    let mut hi: usize = n;
    while hi > lo && is_whitespace(v[hi - 1])
        invariant
            n == v@.len(),
            lo <= hi <= n,
            t == v@.subrange(lo as int, n as int),
            trim_end(t) == trim_end(v@.subrange(lo as int, hi as int)),
        decreases hi - lo,
    {
        let ghost s = v@.subrange(lo as int, hi as int);
        assert(s.drop_last() =~= v@.subrange(lo as int, hi - 1));
        hi = hi - 1;
    }
    sub_chars(v, lo, hi)
}

/// The index of the first `c` in `v[start..]`, or `v.len()` when there is none.
pub fn find_char(v: &[char], start: usize, c: char) -> (r: usize)
    requires
        start <= v@.len(),
    ensures
        start <= r <= v@.len(),
        r - start == first_index(v@.skip(start as int), c),
{
    let mut i = start;
    while i < v.len() && v[i] != c
        invariant
            start <= i <= v@.len(),
            forall|j: int| start <= j < i ==> v@[j] != c,
        decreases v@.len() - i,
    {
        i = i + 1;
    }
    let ghost s = v@.skip(start as int);
    proof {
        lemma_first_index_at(s, c, i - start);
    }
    i
}

/// `v` cut at its first `c`.
pub fn split_once_chars(v: &[char], c: char) -> (r: Option<(Vec<char>, Vec<char>)>)
    ensures
        match r {
            Some((a, b)) => split_once(v@, c) == Some((a@, b@)),
            None => split_once(v@, c) is None,
        },
{
    let i = find_char(v, 0, c);
    assert(v@.skip(0) =~= v@);
    if i < v.len() {
        Some((sub_chars(v, 0, i), sub_chars(v, i + 1, v.len())))
    } else {
        None
    }
}

/// The character sequences that a list of character vectors holds.
pub open spec fn views(v: Seq<Vec<char>>) -> Seq<Seq<char>> {
    v.map_values(|x: Vec<char>| x@)
}

/// The parts of `v` between occurrences of `c`.
pub fn split_chars(v: &[char], c: char) -> (parts: Vec<Vec<char>>)
    ensures
        views(parts@) == split(v@, c),
{
    let mut parts: Vec<Vec<char>> = Vec::new();
    let mut start: usize = 0;
    assert(v@.skip(0) =~= v@);
    assert(views(parts@) =~= Seq::<Seq<char>>::empty());
    loop
        invariant
            start <= v@.len(),
            split(v@, c) == views(parts@) + split(v@.skip(start as int), c),
        decreases v@.len() - start,
    {
        let i = find_char(v, start, c);
        let ghost s = v@.skip(start as int);
        let piece = sub_chars(v, start, i);
        if i >= v.len() {
            assert(piece@ =~= s);
            let ghost before = views(parts@);
            let ghost pv = piece@;
            parts.push(piece);
            assert(views(parts@) =~= before.push(pv));
            assert(views(parts@) =~= split(v@, c));
            return parts;
        }
        assert(piece@ =~= s.take(i - start));
        assert(s.skip(i - start + 1) =~= v@.skip(i + 1));
        let ghost before = views(parts@);
        let ghost pv = piece@;
        parts.push(piece);
        assert(views(parts@) =~= before.push(pv));
        assert(split(v@, c) =~= views(parts@) + split(v@.skip(i + 1), c));
        start = i + 1;
    }
}

/// Whether every character of `v` is an ASCII digit.
pub fn all_digits_exec(v: &[char]) -> (b: bool)
    ensures
        b == all_digits(v@),
{
    let mut i: usize = 0;
    while i < v.len()
        invariant
            i <= v@.len(),
            forall|j: int| 0 <= j < i ==> is_digit(#[trigger] v@[j]),
        decreases v@.len() - i,
    {
        if !('0' <= v[i] && v[i] <= '9') {
            assert(!is_digit(v@[i as int]));
            return false;
        }
        i = i + 1;
    }
    true
}

/// Bound past which a digit string's value is only tracked as "too large".
pub open spec fn value_cap() -> int {
    0x1_0000_0000_0000_0000
}

/// The value of a digit string, or `value_cap()` when it is at least that large.
pub fn capped_digits_value(v: &[char]) -> (r: i128)
    requires
        all_digits(v@),
    ensures
        r == if digits_value(v@) < value_cap() {
            digits_value(v@) as int
        } else {
            value_cap()
        },
{
    let cap: i128 = 0x1_0000_0000_0000_0000;
    let mut acc: i128 = 0;
    let mut i: usize = 0;
    while i < v.len()
        invariant
            i <= v@.len(),
            all_digits(v@),
            cap == value_cap(),
            acc == if digits_value(v@.take(i as int)) < value_cap() {
                digits_value(v@.take(i as int)) as int
            } else {
                value_cap()
            },
        decreases v@.len() - i,
    {
        assert(is_digit(v@[i as int]));
        let d = (v[i] as u32 - 48) as i128;
        let ghost pre = v@.take(i as int);
        let ghost next = v@.take(i + 1);
        assert(next.drop_last() =~= pre);
        assert(next.last() == v@[i as int]);
        acc = acc * 10 + d;
        if acc > cap {
            acc = cap;
        }
        i = i + 1;
    }
    assert(v@.take(v@.len() as int) =~= v@);
    acc
}

/// Parses an integer as `str::parse` does for a type whose range is `min..=max`.
pub fn parse_integer_chars(v: &[char], min: i64, max: i64) -> (r: Option<i64>)
    requires
        min <= 0 <= max,
    ensures
        match r {
            Some(x) => parse_integer(v@, min as int, max as int) == Some(x as int),
            None => parse_integer(v@, min as int, max as int) is None,
        },
{
    let n = v.len();
    if n == 0 {
        return None;
    }
    let signed = min < 0;
    let negative = signed && v[0] == '-';
    let (lo, neg) = if v[0] == '+' || negative {
        (1usize, negative)
    } else {
        (0usize, false)
    };
    let m = sub_chars(v, lo, n);
    if lo == 1 {
        assert(m@ =~= v@.drop_first());
    } else {
        assert(m@ =~= v@);
    }
    if m.len() == 0 || !all_digits_exec(m.as_slice()) {
        return None;
    }
    let mag = capped_digits_value(m.as_slice());
    let value: i128 = if neg {
        -mag
    } else {
        mag
    };
    if (min as i128) <= value && value <= (max as i128) {
        Some(value as i64)
    } else {
        None
    }
}

/// Appends the decimal digits of `n`.
pub fn push_dec(s: &mut String, n: u64)
    ensures
        final(s)@ == old(s)@ + dec(n as nat),
    decreases n,
{
    if n >= 10 {
        push_dec(s, n / 10);
    }
    let d = ((n % 10) as u8 + 48u8) as char;
    s.push(d);
    assert(final(s)@ =~= old(s)@ + dec(n as nat)) by {
        reveal_with_fuel(dec, 2);
    }
}

/// Appends `v` in decimal, with a leading `-` when it is negative.
pub fn push_int(s: &mut String, v: i64)
    ensures
        final(s)@ == old(s)@ + int_str(v as int),
{
    if v < 0 {
        s.push('-');
        let m = (-(v as i128)) as u64;
        push_dec(s, m);
        assert(final(s)@ =~= old(s)@ + int_str(v as int));
    } else {
        push_dec(s, v as u64);
    }
}

/// Appends `k` zeros.
pub fn push_zeros(s: &mut String, k: usize)
    ensures
        final(s)@ == old(s)@ + zeros(k as int),
{
    let mut i: usize = 0;
    while i < k
        invariant
            i <= k,
            s@ == old(s)@ + zeros(i as int),
        decreases k - i,
    {
        s.push('0');
        i = i + 1;
        assert(s@ =~= old(s)@ + zeros(i as int));
    }
}

pub open spec fn pow10(k: nat) -> nat
    decreases k,
{
    if k == 0 {
        1
    } else {
        10 * pow10((k - 1) as nat)
    }
}

pub proof fn lemma_dec_len_le(n: nat, k: nat)
    requires
        k >= 1,
        n < pow10(k),
    ensures
        dec(n).len() <= k,
    decreases k,
{
    if n >= 10 {
        assert(k >= 2) by {
            if k == 1 {
                assert(pow10(1) == 10 * pow10(0));
            }
        }
        assert(n / 10 < pow10((k - 1) as nat));
        lemma_dec_len_le(n / 10, (k - 1) as nat);
    }
}

/// The number of decimal digits of `n`.
pub fn dec_len(n: u64) -> (r: usize)
    ensures
        r == dec(n as nat).len(),
    decreases n,
{
    proof {
        reveal_with_fuel(dec, 2);
        reveal_with_fuel(pow10, 21);
        assert(pow10(20) == 100000000000000000000);
        lemma_dec_len_le(n as nat, 20);
    }
    if n < 10 {
        1
    } else {
        dec_len(n / 10) + 1
    }
}

/// Appends `n` in decimal, padded with zeros on the left to at least `w` characters.
pub fn push_padded(s: &mut String, n: u64, w: usize)
    ensures
        final(s)@ == old(s)@ + pad(n as nat, w as nat),
{
    let len = dec_len(n);
    if len < w {
        push_zeros(s, w - len);
    } else {
        push_zeros(s, 0);
    }
    push_dec(s, n);
    assert(final(s)@ =~= old(s)@ + pad(n as nat, w as nat));
}

/// Appends `v` with zero padding to width `w`, the sign counted in the width.
pub fn push_padded_int(s: &mut String, v: i64, w: usize)
    requires
        w >= 1,
    ensures
        final(s)@ == old(s)@ + pad_int(v as int, w as nat),
{
    if v < 0 {
        s.push('-');
        let m = (-(v as i128)) as u64;
        let len = dec_len(m);
        if len < w - 1 {
            push_zeros(s, w - 1 - len);
        } else {
            push_zeros(s, 0);
        }
        push_dec(s, m);
        assert(final(s)@ =~= old(s)@ + pad_int(v as int, w as nat));
    } else {
        push_padded(s, v as u64, w);
    }
}

// ---------------------------------------------------------------------------
// Words separated by whitespace
// ---------------------------------------------------------------------------

/// The number of characters before the first whitespace.
pub open spec fn run_len(s: Seq<char>) -> nat
    decreases s.len(),
{
    if s.len() == 0 || is_ws(s[0]) {
        0
    } else {
        1 + run_len(s.drop_first())
    }
}

pub proof fn lemma_run_len(s: Seq<char>)
    ensures
        run_len(s) <= s.len(),
        s.len() > 0 && !is_ws(s[0]) ==> run_len(s) >= 1,
    decreases s.len(),
{
    if s.len() > 0 && !is_ws(s[0]) {
        lemma_run_len(s.drop_first());
    }
}

pub proof fn lemma_run_len_at(s: Seq<char>, n: int)
    requires
        0 <= n <= s.len(),
        forall|k: int| 0 <= k < n ==> !is_ws(#[trigger] s[k]),
        n < s.len() ==> is_ws(s[n]),
    ensures
        run_len(s) == n,
    decreases s.len(),
{
    if n > 0 {
        assert(!is_ws(s[0]));
        assert forall|k: int| 0 <= k < n - 1 implies !is_ws(#[trigger] s.drop_first()[k]) by {
            assert(s.drop_first()[k] == s[k + 1]);
        }
        lemma_run_len_at(s.drop_first(), n - 1);
    }
}

/// The maximal runs of non-whitespace characters, as `str::split_whitespace` yields them.
pub open spec fn words(s: Seq<char>) -> Seq<Seq<char>>
    decreases s.len(),
{
    if s.len() == 0 {
        seq![]
    } else if is_ws(s[0]) {
        words(s.drop_first())
    } else {
        proof {
            lemma_run_len(s);
        }
        seq![s.take(run_len(s) as int)] + words(s.skip(run_len(s) as int))
    }
}

/// The whitespace-separated words of `v`.
pub fn words_chars(v: &[char]) -> (r: Vec<Vec<char>>)
    ensures
        views(r@) == words(v@),
{
    let n = v.len();
    let mut out: Vec<Vec<char>> = Vec::new();
    let mut i: usize = 0;
    assert(v@.skip(0) =~= v@);
    assert(views(out@) =~= Seq::<Seq<char>>::empty());
    while i < n
        invariant
            n == v@.len(),
            i <= n,
            words(v@) == views(out@) + words(v@.skip(i as int)),
        decreases n - i,
    {
        let ghost rest = v@.skip(i as int);
        assert(rest[0] == v@[i as int]);
        if is_whitespace(v[i]) {
            assert(rest.drop_first() =~= v@.skip(i + 1));
            i = i + 1;
        } else {
            let mut j = i;
            while j < n && !is_whitespace(v[j])
                invariant
                    n == v@.len(),
                    i <= j <= n,
                    forall|k: int| i <= k < j ==> !is_ws(#[trigger] v@[k]),
                decreases n - j,
            {
                j = j + 1;
            }
            proof {
                assert forall|k: int| 0 <= k < j - i implies !is_ws(#[trigger] rest[k]) by {
                    assert(rest[k] == v@[i + k]);
                }
                if j < n {
                    assert(rest[j - i] == v@[j as int]);
                }
                lemma_run_len_at(rest, j - i);
            }
            let w = sub_chars(v, i, j);
            assert(w@ =~= rest.take(j - i));
            assert(rest.skip(j - i) =~= v@.skip(j as int));
            let ghost before = views(out@);
            let ghost wv = w@;
            out.push(w);
            assert(views(out@) =~= before.push(wv));
            assert(words(v@) =~= views(out@) + words(v@.skip(j as int)));
            i = j;
        }
    }
    assert(v@.skip(n as int) =~= Seq::<char>::empty());
    assert(views(out@) + Seq::<Seq<char>>::empty() =~= views(out@));
    out
}

} // verus!
