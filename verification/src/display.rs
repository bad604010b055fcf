//! Terminal styling of log messages: which words of a message are
//! highlighted, and how (ANSI colours through `owo-colors`).
use vstd::prelude::*;
use owo_colors::OwoColorize;
use crate::text::{chars_of, string_of, has_prefix_at, chars_equal};

verus! {

// ── Styles of `owo-colors` ───────────────────────────────────────────────────

pub open spec fn esc() -> char {
    '\u{1b}'
}

/// A foreground colour with ANSI code `code`: the colour is set before the
/// text and reset to the default foreground after it.
pub open spec fn fg(code: Seq<char>, s: Seq<char>) -> Seq<char> {
    seq![esc(), '['] + code + seq!['m'] + s + seq![esc(), '[', '3', '9', 'm']
}

/// A text attribute with ANSI code `code`: set before the text, all
/// attributes reset after it.
pub open spec fn attr(code: char, s: Seq<char>) -> Seq<char> {
    seq![esc(), '[', code, 'm'] + s + seq![esc(), '[', '0', 'm']
}

pub open spec fn cyan(s: Seq<char>) -> Seq<char> {
    fg(seq!['3', '6'], s)
}

pub open spec fn yellow(s: Seq<char>) -> Seq<char> {
    fg(seq!['3', '3'], s)
}

pub open spec fn white(s: Seq<char>) -> Seq<char> {
    fg(seq!['3', '7'], s)
}

pub open spec fn bold(s: Seq<char>) -> Seq<char> {
    attr('1', s)
}

pub open spec fn dimmed(s: Seq<char>) -> Seq<char> {
    attr('2', s)
}

/// Calls `OwoColorize::cyan` and renders the result: the text between the
/// codes that set the cyan foreground and reset the foreground.
#[verifier::external_body]
fn paint_cyan(s: &str) -> (r: String)
    ensures
        r@ == cyan(s@),
{
    s.cyan().to_string()
}

/// Calls `OwoColorize::yellow` and renders the result.
#[verifier::external_body]
fn paint_yellow(s: &str) -> (r: String)
    ensures
        r@ == yellow(s@),
{
    s.yellow().to_string()
}

/// Calls `OwoColorize::white` and renders the result.
#[verifier::external_body]
fn paint_white(s: &str) -> (r: String)
    ensures
        r@ == white(s@),
{
    s.white().to_string()
}

/// Calls `OwoColorize::bold` and renders the result: the text between the
/// codes that set bold and reset all attributes.
#[verifier::external_body]
fn paint_bold(s: &str) -> (r: String)
    ensures
        r@ == bold(s@),
{
    s.bold().to_string()
}

/// Calls `OwoColorize::dimmed` and renders the result.
#[verifier::external_body]
fn paint_dimmed(s: &str) -> (r: String)
    ensures
        r@ == dimmed(s@),
{
    s.dimmed().to_string()
}

fn cyan_bold(s: &str) -> (r: String)
    ensures
        r@ == bold(cyan(s@)),
{
    let c = paint_cyan(s);
    paint_bold(c.as_str())
}

/// A key and its value for inline display: the key dimmed, `=`, the value
/// in bold cyan.
pub fn kv(key: &str, value: &str) -> (r: String)
    ensures
        r@ == dimmed(key@) + seq!['='] + bold(cyan(value@)),
{
    let mut r = paint_dimmed(key);
    r.push('=');
    let v = cyan_bold(value);
    r.append(v.as_str());
    r
}

// ── Terminal lines ───────────────────────────────────────────────────────────

pub open spec fn green(s: Seq<char>) -> Seq<char> {
    fg(seq!['3', '2'], s)
}

pub open spec fn red(s: Seq<char>) -> Seq<char> {
    fg(seq!['3', '1'], s)
}

/// Calls `OwoColorize::green` and renders the result.
#[verifier::external_body]
fn paint_green(s: &str) -> (r: String)
    ensures
        r@ == green(s@),
{
    s.green().to_string()
}

/// Calls `OwoColorize::red` and renders the result.
#[verifier::external_body]
fn paint_red(s: &str) -> (r: String)
    ensures
        r@ == red(s@),
{
    s.red().to_string()
}

/// The indentation of a terminal line.
pub open spec fn indent() -> Seq<char> {
    seq![' ', ' ']
}

/// `s` padded with spaces on the right to `width` characters, as `{:<width}`
/// formats it.
pub open spec fn padded(s: Seq<char>, width: nat) -> Seq<char> {
    if s.len() >= width { s } else { s + Seq::new((width - s.len()) as nat, |i: int| ' ') }
}

/// The separator rule: 48 box-drawing dashes.
pub open spec fn rule() -> Seq<char> {
    Seq::new(48, |i: int| '─')
}

fn char_string(c: char, n: usize) -> (s: String)
    ensures
        s@ == Seq::new(n as nat, |i: int| c),
{
    let mut s = String::new();
    let mut i: usize = 0;
    while i < n
        invariant
            i <= n,
            s@ == Seq::new(i as nat, |k: int| c),
        decreases n - i,
    {
        s.push(c);
        i = i + 1;
        assert(s@ =~= Seq::new(i as nat, |k: int| c));
    }
    s
}

fn indented(n: usize) -> (s: String)
    ensures
        s@ == Seq::new(n as nat, |i: int| ' '),
{
    char_string(' ', n)
}

/// A success line: a bold green check mark, then the message highlighted.
pub fn ok_line(msg: &str) -> (r: String)
    ensures
        r@ == indent() + bold(green(seq!['✓'])) + seq![' '] + colorize(msg@, false),
{
    let mut r = indented(2);
    let mark = char_string('✓', 1);
    let g = paint_green(mark.as_str());
    let b = paint_bold(g.as_str());
    r.append(b.as_str());
    r.push(' ');
    let body = colorize_message(msg);
    r.append(body.as_str());
    assert(r@ =~= indent() + bold(green(seq!['✓'])) + seq![' '] + colorize(msg@, false));
    r
}

/// An informational line: a dimmed dot, then the message highlighted.
pub fn info_line(msg: &str) -> (r: String)
    ensures
        r@ == indent() + dimmed(seq!['·']) + seq![' '] + colorize(msg@, false),
{
    let mut r = indented(2);
    let mark = char_string('·', 1);
    let d = paint_dimmed(mark.as_str());
    r.append(d.as_str());
    r.push(' ');
    let body = colorize_message(msg);
    r.append(body.as_str());
    assert(r@ =~= indent() + dimmed(seq!['·']) + seq![' '] + colorize(msg@, false));
    r
}

/// A warning line: a bold yellow `!`, then the message highlighted on a
/// yellow base.
pub fn warn_line(msg: &str) -> (r: String)
    ensures
        r@ == indent() + bold(yellow(seq!['!'])) + seq![' '] + colorize(msg@, true),
{
    let mut r = indented(2);
    let mark = char_string('!', 1);
    let y = paint_yellow(mark.as_str());
    let b = paint_bold(y.as_str());
    r.append(b.as_str());
    r.push(' ');
    let body = colorize_message_warn(msg);
    r.append(body.as_str());
    assert(r@ =~= indent() + bold(yellow(seq!['!'])) + seq![' '] + colorize(msg@, true));
    r
}

/// An error line: a bold red lightning sign, then the whole message in red.
pub fn error_line(msg: &str) -> (r: String)
    ensures
        r@ == indent() + bold(red(seq!['⚡'])) + seq![' '] + red(msg@),
{
    let mut r = indented(2);
    let mark = char_string('⚡', 1);
    let m = paint_red(mark.as_str());
    let b = paint_bold(m.as_str());
    r.append(b.as_str());
    r.push(' ');
    let body = paint_red(msg);
    r.append(body.as_str());
    assert(r@ =~= indent() + bold(red(seq!['⚡'])) + seq![' '] + red(msg@));
    r
}

/// A detail line under an event: indented further, a dimmed dot and the
/// message dimmed.
pub fn detail_line(msg: &str) -> (r: String)
    ensures
        r@ == indent() + indent() + dimmed(seq!['·']) + seq![' '] + dimmed(msg@),
{
    let mut r = indented(4);
    let mark = char_string('·', 1);
    let d = paint_dimmed(mark.as_str());
    r.append(d.as_str());
    r.push(' ');
    let body = paint_dimmed(msg);
    r.append(body.as_str());
    assert(r@ =~= indent() + indent() + dimmed(seq!['·']) + seq![' '] + dimmed(msg@));
    r
}

/// A block label: the label dimmed.
pub fn block_label_line(msg: &str) -> (r: String)
    ensures
        r@ == indent() + dimmed(msg@),
{
    let mut r = indented(2);
    let body = paint_dimmed(msg);
    r.append(body.as_str());
    assert(r@ =~= indent() + dimmed(msg@));
    r
}

/// A start-up field: the label dimmed and padded to 12 characters, then the
/// value in bold cyan.
pub fn field_line(label: &str, value: &str) -> (r: String)
    ensures
        r@ == indent() + dimmed(padded(label@, 12)) + seq![' '] + bold(cyan(value@)),
{
    let mut r = indented(2);
    let chars = chars_of(label);
    let mut lab = String::new();
    lab.append(label);
    if chars.len() < 12 {
        let pad = indented(12 - chars.len());
        lab.append(pad.as_str());
    }
    assert(lab@ =~= padded(label@, 12));
    let d = paint_dimmed(lab.as_str());
    r.append(d.as_str());
    r.push(' ');
    let v = cyan_bold(value);
    r.append(v.as_str());
    assert(r@ =~= indent() + dimmed(padded(label@, 12)) + seq![' '] + bold(cyan(value@)));
    r
}

/// The separator line: the rule dimmed.
pub fn separator_line() -> (r: String)
    ensures
        r@ == indent() + dimmed(rule()),
{
    let mut r = indented(2);
    let dashes = char_string('─', 48);
    let d = paint_dimmed(dashes.as_str());
    r.append(d.as_str());
    assert(r@ =~= indent() + dimmed(rule()));
    r
}

/// The title of the start-up header: `[EchoTrap v<version>]` in bold cyan.
pub fn header_title(version: &str) -> (r: String)
    ensures
        r@ == indent() + bold(cyan("[EchoTrap v"@ + version@ + "]"@)),
{
    let mut t = String::new();
    t.append("[EchoTrap v");
    t.append(version);
    t.append("]");
    let mut r = indented(2);
    let c = cyan_bold(t.as_str());
    r.append(c.as_str());
    assert(r@ =~= indent() + bold(cyan("[EchoTrap v"@ + version@ + "]"@)));
    r
}

/// The tag line of the start-up header, dimmed.
pub fn header_tagline() -> (r: String)
    ensures
        r@ == indent() + dimmed("self-rebuilding TCP honeypot"@),
{
    let mut r = indented(2);
    let d = paint_dimmed("self-rebuilding TCP honeypot");
    r.append(d.as_str());
    assert(r@ =~= indent() + dimmed("self-rebuilding TCP honeypot"@));
    r
}

// ── Character classes ────────────────────────────────────────────────────────

/// Whether `char::is_alphanumeric` holds of `c` (Unicode `Alphabetic` or
/// `Numeric`).
pub uninterp spec fn alphanumeric(c: char) -> bool;

/// Calls `char::is_alphanumeric`; its result is named `alphanumeric`.
#[verifier::external_body]
fn is_alphanumeric(c: char) -> (b: bool)
    ensures
        b == alphanumeric(c),
{
    c.is_alphanumeric()
}

/// `s` without leading characters from `set`.
pub open spec fn strip_set_leading(s: Seq<char>, set: Seq<char>) -> Seq<char>
    decreases s.len(),
{
    if s.len() > 0 && set.contains(s[0]) {
        strip_set_leading(s.drop_first(), set)
    } else {
        s
    }
}

/// `s` without trailing characters from `set`.
pub open spec fn strip_set_trailing(s: Seq<char>, set: Seq<char>) -> Seq<char>
    decreases s.len(),
{
    if s.len() > 0 && set.contains(s.last()) {
        strip_set_trailing(s.drop_last(), set)
    } else {
        s
    }
}

/// `s` with leading and trailing characters from `set` removed, as
/// `str::trim_matches` with a slice of characters gives it.
pub open spec fn trim_set(s: Seq<char>, set: Seq<char>) -> Seq<char> {
    strip_set_trailing(strip_set_leading(s, set), set)
}

proof fn lemma_strip_set_leading_from(s: Seq<char>, set: Seq<char>, i: int)
    requires
        0 <= i <= s.len(),
        forall|k: int| 0 <= k < i ==> set.contains(#[trigger] s[k]),
    ensures
        strip_set_leading(s, set) == strip_set_leading(s.subrange(i, s.len() as int), set),
    decreases i,
{
    if i > 0 {
        let d = s.drop_first();
        assert(set.contains(s[0]));
        assert forall|k: int| 0 <= k < i - 1 implies set.contains(#[trigger] d[k]) by {
            assert(d[k] == s[k + 1]);
        }
        lemma_strip_set_leading_from(d, set, i - 1);
        assert(d.subrange(i - 1, d.len() as int) =~= s.subrange(i, s.len() as int));
    } else {
        assert(s.subrange(0, s.len() as int) =~= s);
    }
}

proof fn lemma_strip_set_trailing_to(s: Seq<char>, set: Seq<char>, j: int)
    requires
        0 <= j <= s.len(),
        forall|k: int| j <= k < s.len() ==> set.contains(#[trigger] s[k]),
    ensures
        strip_set_trailing(s, set) == strip_set_trailing(s.subrange(0, j), set),
    decreases s.len() - j,
{
    if j < s.len() {
        let d = s.drop_last();
        assert(set.contains(s[s.len() - 1]));
        assert forall|k: int| j <= k < d.len() implies set.contains(#[trigger] d[k]) by {
            assert(d[k] == s[k]);
        }
        lemma_strip_set_trailing_to(d, set, j);
        assert(d.subrange(0, j) =~= s.subrange(0, j));
    } else {
        assert(s.subrange(0, j) =~= s);
    }
}

fn char_in(c: char, set: &[char]) -> (b: bool)
    ensures
        b == set@.contains(c),
{
    let mut i: usize = 0;
    while i < set.len()
        invariant
            i <= set@.len(),
            forall|k: int| 0 <= k < i ==> set@[k] != c,
        decreases set@.len() - i,
    {
        if set[i] == c {
            assert(set@[i as int] == c);
            return true;
        }
        i = i + 1;
    }
    false
}

/// The characters of `v` with leading and trailing characters from `set`
/// removed.
pub fn trim_chars_in(v: &[char], set: &[char]) -> (out: Vec<char>)
    ensures
        out@ == trim_set(v@, set@),
{
    let n = v.len();
    let mut i: usize = 0;
    while i < n && char_in(v[i], set)
        invariant
            n == v@.len(),
            i <= n,
            forall|k: int| 0 <= k < i ==> set@.contains(#[trigger] v@[k]),
        decreases n - i,
    {
        i = i + 1;
    }
    proof {
        lemma_strip_set_leading_from(v@, set@, i as int);
    }
    let ghost rest = v@.subrange(i as int, n as int);
    let mut j: usize = n;
    while j > i && char_in(v[j - 1], set)
        invariant
            n == v@.len(),
            i <= j <= n,
            forall|k: int| j <= k < n ==> set@.contains(#[trigger] v@[k]),
        decreases j - i,
    {
        j = j - 1;
    }
    proof {
        assert(rest.len() == 0 || !set@.contains(rest[0]));
        assert(strip_set_leading(rest, set@) == rest);
        assert forall|k: int| j - i <= k < rest.len() implies set@.contains(#[trigger] rest[k]) by {
            assert(rest[k] == v@[k + i]);
        }
        lemma_strip_set_trailing_to(rest, set@, j - i);
        assert(rest.subrange(0, j - i) =~= v@.subrange(i as int, j as int));
        let t = v@.subrange(i as int, j as int);
        assert(t.len() == 0 || !set@.contains(t.last()));
    }
    slice_copy(v, i, j)
}

fn slice_copy(v: &[char], from: usize, to: usize) -> (out: Vec<char>)
    requires
        from <= to <= v@.len(),
    ensures
        out@ == v@.subrange(from as int, to as int),
{
    let mut out: Vec<char> = Vec::new();
    let mut k: usize = from;
    while k < to
        invariant
            from <= k <= to <= v@.len(),
            out@ == v@.subrange(from as int, k as int),
        decreases to - k,
    {
        out.push(v[k]);
        k = k + 1;
        assert(out@ =~= v@.subrange(from as int, k as int));
    }
    out
}

// ── Parsing a port number as `u16::from_str` does ─────────────────────────────

pub open spec fn is_digit(c: char) -> bool {
    '0' <= c <= '9'
}

pub open spec fn digit_value(c: char) -> nat {
    (c as int - '0' as int) as nat
}

/// The value of a string of decimal digits.
pub open spec fn digits_value(s: Seq<char>) -> nat
    decreases s.len(),
{
    if s.len() == 0 {
        0
    } else {
        digits_value(s.drop_last()) * 10 + digit_value(s.last())
    }
}

/// Whether `u16::from_str` accepts `s`: an optional `+`, then at least one
/// ASCII digit and nothing else, with a value of at most 65535.
pub open spec fn parses_as_u16(s: Seq<char>) -> bool {
    let d = if s.len() > 0 && s[0] == '+' { s.drop_first() } else { s };
    &&& d.len() > 0
    &&& all_digits(d)
    &&& digits_value(d) <= 65535
}

/// Every character is an ASCII digit.
pub open spec fn all_digits(s: Seq<char>) -> bool {
    forall|i: int| 0 <= i < s.len() ==> is_digit(#[trigger] s[i])
}

/// Whether `v[from..]` is accepted by `u16::from_str`.
pub fn parses_u16_from(v: &[char], from: usize) -> (b: bool)
    requires
        from <= v@.len(),
    ensures
        b == parses_as_u16(v@.subrange(from as int, v@.len() as int)),
{
    let n = v.len();
    let ghost s = v@.subrange(from as int, n as int);
    let mut start = from;
    if from < n && v[from] == '+' {
        start = from + 1;
    }
    let ghost d = v@.subrange(start as int, n as int);
    proof {
        if s.len() > 0 {
            assert(s[0] == v@[from as int]);
        }
        if from < n && v@[from as int] == '+' {
            assert(s.drop_first() =~= d);
        } else {
            assert(s =~= d);
        }
    }
    let ghost ok = d.len() > 0 && all_digits(d) && digits_value(d) <= 65535;
    assert(d == (if s.len() > 0 && s[0] == '+' { s.drop_first() } else { s }));
    assert(parses_as_u16(s) == ok);
    if start >= n {
        return false;
    }
    let mut value: u32 = 0;
    let mut k: usize = start;
    while k < n
        invariant
            n == v@.len(),
            start < n,
            start <= k <= n,
            d == v@.subrange(start as int, n as int),
            parses_as_u16(v@.subrange(from as int, n as int)) == ok,
            ok == (d.len() > 0 && all_digits(d) && digits_value(d) <= 65535),
            forall|i: int| start <= i < k ==> is_digit(#[trigger] v@[i]),
            value == digits_value(v@.subrange(start as int, k as int)),
            value <= 65535,
        decreases n - k,
    {
        let c = v[k];
        if !('0' <= c && c <= '9') {
            assert(!is_digit(d[k - start]));
            return false;
        }
        proof {
            assert(v@.subrange(start as int, k + 1).drop_last() =~= v@.subrange(start as int, k as int));
        }
        let dv = (c as u32) - ('0' as u32);
        value = value * 10 + dv;
        k = k + 1;
        if value > 65535 {
            proof {
                assert(d.take(k - start) =~= v@.subrange(start as int, k as int));
                assert forall|i: int| 0 <= i < k - start implies is_digit(#[trigger] d[i]) by {
                    assert(d[i] == v@[start + i]);
                }
                lemma_digits_prefix_bound(d, k - start);
            }
            return false;
        }
    }
    proof {
        assert(v@.subrange(start as int, n as int) =~= d);
        assert forall|i: int| 0 <= i < d.len() implies is_digit(#[trigger] d[i]) by {
            assert(d[i] == v@[start + i]);
        }
    }
    true
}

proof fn lemma_digits_prefix_bound(d: Seq<char>, k: int)
    requires
        0 < k <= d.len(),
        forall|i: int| 0 <= i < k ==> is_digit(#[trigger] d[i]),
    ensures
        all_digits(d) ==> digits_value(d) >= digits_value(d.take(k)),
    decreases d.len() - k,
{
    if k < d.len() {
        if all_digits(d) {
            let p = d.drop_last();
            assert forall|i: int| 0 <= i < k implies is_digit(#[trigger] p[i]) by {
                assert(p[i] == d[i]);
            }
            lemma_digits_prefix_bound(p, k);
            assert forall|i: int| 0 <= i < p.len() implies is_digit(#[trigger] p[i]) by {
                assert(p[i] == d[i]);
            }
            assert(p.take(k) =~= d.take(k));
        }
    } else {
        assert(d.take(k) =~= d);
    }
}

// ── Recognizing highlighted words ─────────────────────────────────────────────

/// The position of the first `c` in `s`, or `s.len()` when there is none.
pub open spec fn first_index(s: Seq<char>, c: char) -> nat
    decreases s.len(),
{
    if s.len() == 0 {
        0
    } else if s[0] == c {
        0
    } else {
        1 + first_index(s.drop_first(), c)
    }
}

/// The position of the last `c` in `s`, or -1 when there is none.
pub open spec fn last_index(s: Seq<char>, c: char) -> int
    decreases s.len(),
{
    if s.len() == 0 {
        -1
    } else if s.last() == c {
        s.len() - 1
    } else {
        last_index(s.drop_last(), c)
    }
}

proof fn lemma_first_index(s: Seq<char>, c: char, i: int)
    requires
        0 <= i <= s.len(),
        forall|k: int| 0 <= k < i ==> s[k] != c,
        i == s.len() || s[i] == c,
    ensures
        first_index(s, c) == i,
    decreases i,
{
    if i > 0 {
        let d = s.drop_first();
        assert forall|k: int| 0 <= k < i - 1 implies d[k] != c by {
            assert(d[k] == s[k + 1]);
        }
        if i < s.len() {
            assert(d[i - 1] == s[i]);
        }
        lemma_first_index(d, c, i - 1);
    }
}

proof fn lemma_last_index(s: Seq<char>, c: char, j: int)
    requires
        -1 <= j < s.len(),
        forall|k: int| j < k < s.len() ==> s[k] != c,
        j == -1 || s[j] == c,
    ensures
        last_index(s, c) == j,
    decreases s.len(),
{
    if s.len() > 0 && j < s.len() - 1 {
        let d = s.drop_last();
        assert forall|k: int| j < k < d.len() implies d[k] != c by {
            assert(d[k] == s[k]);
        }
        if j >= 0 {
            assert(d[j] == s[j]);
        }
        lemma_last_index(d, c, j);
    }
}

fn find_first(v: &[char], c: char) -> (i: usize)
    ensures
        i == first_index(v@, c),
        i <= v@.len(),
{
    let n = v.len();
    let mut i: usize = 0;
    while i < n && v[i] != c
        invariant
            n == v@.len(),
            i <= n,
            forall|k: int| 0 <= k < i ==> v@[k] != c,
        decreases n - i,
    {
        i = i + 1;
    }
    proof {
        lemma_first_index(v@, c, i as int);
    }
    i
}

fn find_last(v: &[char], c: char) -> (r: Option<usize>)
    ensures
        r matches Some(j) ==> j == last_index(v@, c) && j < v@.len(),
        r is None ==> last_index(v@, c) == -1,
{
    let mut j: usize = v.len();
    while j > 0 && v[j - 1] != c
        invariant
            j <= v@.len(),
            forall|k: int| j <= k < v@.len() ==> v@[k] != c,
        decreases j,
    {
        j = j - 1;
    }
    if j == 0 {
        proof {
            lemma_last_index(v@, c, -1);
        }
        None
    } else {
        proof {
            lemma_last_index(v@, c, j - 1);
        }
        Some(j - 1)
    }
}

fn contains_char(v: &[char], c: char) -> (b: bool)
    ensures
        b == v@.contains(c),
{
    char_in(c, v)
}

pub open spec fn address_edges() -> Seq<char> {
    seq![',', '.', ')', '(', '[', ']']
}

pub open spec fn port_edges() -> Seq<char> {
    seq![',', '.']
}

pub open spec fn persona_edges() -> Seq<char> {
    seq![',', '.', '[', ']']
}

pub open spec fn localhost_word() -> Seq<char> {
    seq!['l', 'o', 'c', 'a', 'l', 'h', 'o', 's', 't']
}

/// The persona names that are highlighted.
pub open spec fn persona_words() -> Seq<Seq<char>> {
    seq![
        seq!['s', 's', 'h'],
        seq!['h', 't', 't', 'p'],
        seq!['r', 'e', 'd', 'i', 's'],
        seq!['r', 'a', 'w'],
        seq!['S', 'S', 'H'],
        seq!['H', 'T', 'T', 'P'],
        seq!['R', 'e', 'd', 'i', 's'],
        seq!['R', 'a', 'w'],
    ]
}

/// An `IP:port` or `host:port` address: after trimming `,.()[]`, the part
/// after the last `:` parses as a port and the part before it contains a
/// `.` or is `localhost`.
pub open spec fn looks_like_address(s: Seq<char>) -> bool {
    let t = trim_set(s, address_edges());
    let i = last_index(t, ':');
    &&& i >= 0
    &&& parses_as_u16(t.subrange(i + 1, t.len() as int))
    &&& (t.take(i).contains('.') || t.take(i) == localhost_word())
}

/// A bare port reference such as `:9000`: after trimming `,.`, a `:`
/// followed by a port number.
pub open spec fn looks_like_port(s: Seq<char>) -> bool {
    let t = trim_set(s, port_edges());
    t.len() > 0 && t[0] == ':' && parses_as_u16(t.drop_first())
}

/// The length of the run of ASCII digits that begins `s`.
pub open spec fn digit_run(s: Seq<char>) -> nat
    decreases s.len(),
{
    if s.len() == 0 || !is_digit(s[0]) {
        0
    } else {
        1 + digit_run(s.drop_first())
    }
}

/// The units a duration may carry.
pub open spec fn duration_units() -> Seq<Seq<char>> {
    seq![seq!['m', 's'], seq!['s'], seq!['m'], seq!['h']]
}

/// A duration such as `30s` or `31ms`: after trimming `,.()[]`, one or more
/// ASCII digits followed by exactly one of the units `ms`, `s`, `m`, `h`.
pub open spec fn looks_like_duration(s: Seq<char>) -> bool {
    let t = trim_set(s, address_edges());
    let k = digit_run(t);
    k > 0 && k <= t.len() && duration_units().contains(t.skip(k as int))
}

/// A persona name, after trimming `,.[]`.
pub open spec fn looks_like_persona(s: Seq<char>) -> bool {
    persona_words().contains(trim_set(s, persona_edges()))
}

/// A character allowed in the key of a `key=value` pair.
pub open spec fn key_char(c: char) -> bool {
    alphanumeric(c) || c == '_' || c == '-'
}

/// Every character is allowed in a key.
pub open spec fn all_key_chars(k: Seq<char>) -> bool {
    forall|i: int| 0 <= i < k.len() ==> key_char(#[trigger] k[i])
}

/// The message's base colour: yellow for warnings, white otherwise.
pub open spec fn base_colour(s: Seq<char>, yellow_base: bool) -> Seq<char> {
    if yellow_base { yellow(s) } else { white(s) }
}

/// A word without its trailing space, styled: addresses, ports, persona
/// names and durations in bold cyan; a `key=value` pair (non-empty key of letters, digits,
/// `_` or `-`, non-empty value, split at the first `=`) with the key dimmed
/// and the value in bold cyan; anything else in the base colour.
pub open spec fn style_word(t: Seq<char>, yellow_base: bool) -> Seq<char> {
    if looks_like_address(t) || looks_like_port(t) || looks_like_persona(t) || looks_like_duration(t) {
        bold(cyan(t))
    } else {
        let e = first_index(t, '=');
        if e < t.len() && e > 0 && e + 1 < t.len() && all_key_chars(t.take(e as int)) {
            dimmed(t.take(e as int)) + seq!['='] + bold(cyan(t.skip(e + 1 as int)))
        } else {
            base_colour(t, yellow_base)
        }
    }
}

/// A token (a word and the space that ends it, if any), styled: the word
/// is styled and the space kept.
pub open spec fn style_token(token: Seq<char>, yellow_base: bool) -> Seq<char> {
    if token.len() > 0 && token.last() == ' ' {
        style_word(token.drop_last(), yellow_base) + seq![' ']
    } else {
        style_word(token, yellow_base)
    }
}

/// The length of the first token of `s`: up to and including the first
/// space, or all of `s` when it has none.
pub open spec fn token_len(s: Seq<char>) -> nat {
    if first_index(s, ' ') < s.len() { first_index(s, ' ') + 1 } else { s.len() }
}

/// A message with each token styled, as `str::split_inclusive(' ')` cuts it.
pub open spec fn colorize(s: Seq<char>, yellow_base: bool) -> Seq<char>
    decreases s.len(),
{
    if s.len() == 0 {
        Seq::empty()
    } else {
        let n = token_len(s);
        if 0 < n <= s.len() {
            style_token(s.take(n as int), yellow_base) + colorize(s.skip(n as int), yellow_base)
        } else {
            Seq::empty()
        }
    }
}

fn is_address(t: &[char]) -> (b: bool)
    ensures
        b == looks_like_address(t@),
{
    let edges = [',', '.', ')', '(', '[', ']'];
    assert(edges@ == address_edges());
    let u = trim_chars_in(t, &edges);
    let n = u.len();
    match find_last(&u, ':') {
        None => false,
        Some(i) => {
            assert(i < n);
            if !parses_u16_from(&u, i + 1) {
                return false;
            }
            let host = slice_copy(&u, 0, i);
            assert(host@ == u@.take(i as int));
            let local = ['l', 'o', 'c', 'a', 'l', 'h', 'o', 's', 't'];
            assert(local@ == localhost_word());
            contains_char(&host, '.') || chars_equal(&host, &local)
        },
    }
}

fn is_port(t: &[char]) -> (b: bool)
    ensures
        b == looks_like_port(t@),
{
    let edges = [',', '.'];
    assert(edges@ == port_edges());
    let u = trim_chars_in(t, &edges);
    if u.len() == 0 || u[0] != ':' {
        return false;
    }
    let r = parses_u16_from(&u, 1);
    assert(u@.subrange(1, u@.len() as int) =~= u@.drop_first());
    r
}

proof fn lemma_digit_run(s: Seq<char>, k: int)
    requires
        0 <= k <= s.len(),
        forall|i: int| 0 <= i < k ==> is_digit(#[trigger] s[i]),
        k == s.len() || !is_digit(s[k]),
    ensures
        digit_run(s) == k,
    decreases k,
{
    if k > 0 {
        let d = s.drop_first();
        assert forall|i: int| 0 <= i < k - 1 implies is_digit(#[trigger] d[i]) by {
            assert(d[i] == s[i + 1]);
        }
        if k < s.len() {
            assert(d[k - 1] == s[k]);
        }
        lemma_digit_run(d, k - 1);
    }
}

fn is_duration(t: &[char]) -> (b: bool)
    ensures
        b == looks_like_duration(t@),
{
    let edges = [',', '.', ')', '(', '[', ']'];
    assert(edges@ == address_edges());
    let u = trim_chars_in(t, &edges);
    let n = u.len();
    let mut k: usize = 0;
    while k < n && '0' <= u[k] && u[k] <= '9'
        invariant
            n == u@.len(),
            k <= n,
            forall|i: int| 0 <= i < k ==> is_digit(#[trigger] u@[i]),
        decreases n - k,
    {
        k = k + 1;
    }
    proof {
        lemma_digit_run(u@, k as int);
    }
    if k == 0 {
        return false;
    }
    let unit = slice_copy(&u, k, n);
    assert(unit@ =~= u@.skip(k as int));
    let ms = ['m', 's'];
    let sec = ['s'];
    let min = ['m'];
    let hr = ['h'];
    let ghost us = duration_units();
    assert(ms@ == us[0]);
    assert(sec@ == us[1]);
    assert(min@ == us[2]);
    assert(hr@ == us[3]);
    let r = chars_equal(&unit, &ms) || chars_equal(&unit, &sec) || chars_equal(&unit, &min) || chars_equal(&unit, &hr);
    proof {
        if us.contains(unit@) {
            let j = choose|j: int| 0 <= j < us.len() && us[j] == unit@;
            assert(r);
        }
        if r {
            if unit@ == us[0] { assert(us.contains(unit@)); }
            else if unit@ == us[1] { assert(us.contains(unit@)); }
            else if unit@ == us[2] { assert(us.contains(unit@)); }
            else { assert(us.contains(unit@)); }
        }
    }
    r
}

fn is_persona(t: &[char]) -> (b: bool)
    ensures
        b == looks_like_persona(t@),
{
    let edges = [',', '.', '[', ']'];
    assert(edges@ == persona_edges());
    let u = trim_chars_in(t, &edges);
    let w0 = ['s', 's', 'h'];
    let w1 = ['h', 't', 't', 'p'];
    let w2 = ['r', 'e', 'd', 'i', 's'];
    let w3 = ['r', 'a', 'w'];
    let w4 = ['S', 'S', 'H'];
    let w5 = ['H', 'T', 'T', 'P'];
    let w6 = ['R', 'e', 'd', 'i', 's'];
    let w7 = ['R', 'a', 'w'];
    let ghost ws = persona_words();
    assert(w0@ == ws[0]);
    assert(w1@ == ws[1]);
    assert(w2@ == ws[2]);
    assert(w3@ == ws[3]);
    assert(w4@ == ws[4]);
    assert(w5@ == ws[5]);
    assert(w6@ == ws[6]);
    assert(w7@ == ws[7]);
    let r = chars_equal(&u, &w0) || chars_equal(&u, &w1) || chars_equal(&u, &w2) || chars_equal(&u, &w3)
        || chars_equal(&u, &w4) || chars_equal(&u, &w5) || chars_equal(&u, &w6) || chars_equal(&u, &w7);
    proof {
        if ws.contains(u@) {
            let k = choose|k: int| 0 <= k < ws.len() && ws[k] == u@;
            assert(r);
        }
        if r {
            if u@ == ws[0] { assert(ws.contains(u@)); }
            else if u@ == ws[1] { assert(ws.contains(u@)); }
            else if u@ == ws[2] { assert(ws.contains(u@)); }
            else if u@ == ws[3] { assert(ws.contains(u@)); }
            else if u@ == ws[4] { assert(ws.contains(u@)); }
            else if u@ == ws[5] { assert(ws.contains(u@)); }
            else if u@ == ws[6] { assert(ws.contains(u@)); }
            else { assert(ws.contains(u@)); }
        }
    }
    r
}

fn all_key_chars_of(k: &[char]) -> (b: bool)
    ensures
        b == all_key_chars(k@),
{
    let mut i: usize = 0;
    while i < k.len()
        invariant
            i <= k@.len(),
            forall|j: int| 0 <= j < i ==> key_char(#[trigger] k@[j]),
        decreases k@.len() - i,
    {
        let c = k[i];
        if !(is_alphanumeric(c) || c == '_' || c == '-') {
            assert(!key_char(k@[i as int]));
            return false;
        }
        i = i + 1;
    }
    true
}

fn style_word_of(t: &[char], yellow_base: bool) -> (r: String)
    ensures
        r@ == style_word(t@, yellow_base),
{
    let text = string_of(t);
    if is_address(t) || is_port(t) || is_persona(t) || is_duration(t) {
        return cyan_bold(text.as_str());
    }
    let n = t.len();
    let e = find_first(t, '=');
    if e < n && e > 0 && e + 1 < n {
        let key = slice_copy(t, 0, e);
        if all_key_chars_of(&key) {
            let value = slice_copy(t, e + 1, n);
            assert(key@ == t@.take(e as int));
            assert(value@ =~= t@.skip(e + 1));
            let ks = string_of(&key);
            let vs = string_of(&value);
            let mut r = paint_dimmed(ks.as_str());
            r.push('=');
            let v = cyan_bold(vs.as_str());
            r.append(v.as_str());
            return r;
        }
    }
    if yellow_base {
        paint_yellow(text.as_str())
    } else {
        paint_white(text.as_str())
    }
}

fn style_token_of(token: &[char], yellow_base: bool) -> (r: String)
    ensures
        r@ == style_token(token@, yellow_base),
{
    let n = token.len();
    if n > 0 && token[n - 1] == ' ' {
        let word = slice_copy(token, 0, n - 1);
        assert(word@ == token@.drop_last());
        let mut r = style_word_of(&word, yellow_base);
        r.push(' ');
        r
    } else {
        style_word_of(token, yellow_base)
    }
}

pub fn colorize_inner(msg: &str, yellow_base: bool) -> (r: String)
    ensures
        r@ == colorize(msg@, yellow_base),
{
    let v = chars_of(msg);
    let n = v.len();
    let mut out = String::new();
    let mut pos: usize = 0;
    assert(v@.skip(0) =~= v@);
    while pos < n
        invariant
            n == v@.len(),
            pos <= n,
            colorize(v@, yellow_base) == out@ + colorize(v@.skip(pos as int), yellow_base),
        decreases n - pos,
    {
        let ghost rest = v@.skip(pos as int);
        let mut e: usize = pos;
        while e < n && v[e] != ' '
            invariant
                n == v@.len(),
                pos <= e <= n,
                forall|k: int| pos <= k < e ==> v@[k] != ' ',
            decreases n - e,
        {
            e = e + 1;
        }
        let end = if e < n { e + 1 } else { n };
        proof {
            assert forall|k: int| 0 <= k < e - pos implies rest[k] != ' ' by {
                assert(rest[k] == v@[pos + k]);
            }
            if e < n {
                assert(rest[e - pos] == v@[e as int]);
            }
            lemma_first_index(rest, ' ', e - pos);
            assert(token_len(rest) == end - pos);
            assert(rest.take(end - pos) =~= v@.subrange(pos as int, end as int));
            assert(rest.skip(end - pos) =~= v@.skip(end as int));
        }
        let token = slice_copy(&v, pos, end);
        let styled = style_token_of(&token, yellow_base);
        out.append(styled.as_str());
        pos = end;
    }
    proof {
        assert(v@.skip(n as int) =~= Seq::<char>::empty());
    }
    out
}

/// The message with addresses, ports, persona names, durations and
/// `key=value` pairs highlighted and the rest in white.
pub fn colorize_message(msg: &str) -> (r: String)
    ensures
        r@ == colorize(msg@, false),
{
    colorize_inner(msg, false)
}

/// The message with addresses, ports, persona names, durations and
/// `key=value` pairs highlighted and the rest in yellow (for warnings).
pub fn colorize_message_warn(msg: &str) -> (r: String)
    ensures
        r@ == colorize(msg@, true),
{
    colorize_inner(msg, true)
}

// ── Routing log lines ────────────────────────────────────────────────────────

/// The level of a log event.
#[derive(Clone, Copy, Debug, PartialEq, Eq, Structural)]
pub enum LogLevel {
    Error,
    Warn,
    Info,
    Debug,
    Trace,
}

/// How a log line is shown on the terminal.
#[derive(Clone, Copy, Debug, PartialEq, Eq, Structural)]
pub enum LineStyle {
    /// Green check mark: a success.
    Success,
    /// Dim dot: information.
    Info,
    /// Yellow exclamation mark: a warning or alert.
    Warn,
    /// Red: an error.
    Error,
}

/// `s` begins with `p`.
pub open spec fn starts_with(s: Seq<char>, p: Seq<char>) -> bool {
    p.len() <= s.len() && s.take(p.len() as int) == p
}

/// An informational message that reports a success.
pub open spec fn is_success_message(raw: Seq<char>) -> bool {
    ||| starts_with(raw, "EchoTrap listening on"@)
    ||| starts_with(raw, "Migration complete"@)
    ||| starts_with(raw, "Dashboard listening on"@)
    ||| starts_with(raw, "[DECOY] Decoy listener active"@)
    ||| starts_with(raw, "EchoTrap shut down"@)
}

fn starts_with_str(v: &[char], p: &str) -> (b: bool)
    ensures
        b == starts_with(v@, p@),
{
    let pc = chars_of(p);
    let r = has_prefix_at(v, 0, &pc);
    assert(v@.subrange(0, pc@.len() as int) =~= v@.take(pc@.len() as int));
    r
}

/// Whether an informational message is shown as a success: it reports a
/// listener coming up, a migration completing, the dashboard coming up, a
/// decoy becoming active, or a clean shutdown.
pub fn route_info(raw: &str) -> (ok: bool)
    ensures
        ok == is_success_message(raw@),
{
    let v = chars_of(raw);
    starts_with_str(&v, "EchoTrap listening on")
        || starts_with_str(&v, "Migration complete")
        || starts_with_str(&v, "Dashboard listening on")
        || starts_with_str(&v, "[DECOY] Decoy listener active")
        || starts_with_str(&v, "EchoTrap shut down")
}

/// `s` without its trailing line feeds.
pub open spec fn strip_newlines(s: Seq<char>) -> Seq<char>
    decreases s.len(),
{
    if s.len() > 0 && s.last() == '\n' {
        strip_newlines(s.drop_last())
    } else {
        s
    }
}

/// The style of a non-empty log line of the given level.
pub open spec fn style_for(level: LogLevel, raw: Seq<char>) -> LineStyle {
    match level {
        LogLevel::Warn => LineStyle::Warn,
        LogLevel::Error => LineStyle::Error,
        LogLevel::Info => if is_success_message(raw) { LineStyle::Success } else { LineStyle::Info },
        _ => LineStyle::Info,
    }
}

/// How a formatted log event is shown: its trailing line feeds are removed;
/// an empty line is not shown; otherwise warnings and errors get their own
/// style, informational lines are successes or plain information, and
/// other levels are plain information.
pub fn route_line(level: LogLevel, text: &str) -> (r: Option<(LineStyle, String)>)
    ensures
        strip_newlines(text@).len() == 0 ==> r is None,
        strip_newlines(text@).len() > 0 ==> (r matches Some((style, line)) && line@ == strip_newlines(text@)
            && style == style_for(level, strip_newlines(text@))),
{
    let v = chars_of(text);
    let mut j: usize = v.len();
    assert(v@.subrange(0, v@.len() as int) =~= v@);
    while j > 0 && v[j - 1] == '\n'
        invariant
            j <= v@.len(),
            strip_newlines(v@) == strip_newlines(v@.subrange(0, j as int)),
        decreases j,
    {
        proof {
            assert(v@.subrange(0, j as int).drop_last() =~= v@.subrange(0, j - 1));
        }
        j = j - 1;
    }
    let line_chars = slice_copy(&v, 0, j);
    proof {
        let t = v@.subrange(0, j as int);
        assert(t.len() == 0 || t.last() != '\n');
        assert(strip_newlines(t) == t);
    }
    if j == 0 {
        return None;
    }
    let line = string_of(&line_chars);
    let style = match level {
        LogLevel::Warn => LineStyle::Warn,
        LogLevel::Error => LineStyle::Error,
        LogLevel::Info => if route_info(line.as_str()) { LineStyle::Success } else { LineStyle::Info },
        _ => LineStyle::Info,
    };
    Some((style, line))
}


/// Highlighting goes word by word: a message that starts with a word (no
/// space in it) and a space is that word styled, the space, then the rest of
/// the message highlighted on its own; a last word with no space after it is
/// styled alone; and an empty message stays empty.
pub proof fn law_colorize_by_words(word: Seq<char>, rest: Seq<char>, yellow_base: bool)
    requires
        word.len() > 0,
        !word.contains(' '),
    ensures
        colorize(word + seq![' '] + rest, yellow_base)
            == style_word(word, yellow_base) + seq![' '] + colorize(rest, yellow_base),
        colorize(word, yellow_base) == style_word(word, yellow_base),
        colorize(Seq::empty(), yellow_base) == Seq::<char>::empty(),
{
    let s = word + seq![' '] + rest;
    let n = word.len() as int;
    assert forall|k: int| 0 <= k < n implies s[k] != ' ' by {
        assert(s[k] == word[k]);
    }
    assert(s[n] == ' ');
    lemma_first_index(s, ' ', n);
    assert(s.take(n + 1) =~= word.push(' '));
    assert(word.push(' ').drop_last() =~= word);
    assert(s.skip(n + 1) =~= rest);
    lemma_first_index(word, ' ', n);
    assert(word.take(n) =~= word);
    assert(word.skip(n) =~= Seq::<char>::empty());
    assert(word.last() != ' ') by {
        assert(word[n - 1] == word.last());
    }
    assert(colorize(Seq::<char>::empty(), yellow_base) == Seq::<char>::empty());
    assert(style_token(word, yellow_base) == style_word(word, yellow_base));
    assert(colorize(word, yellow_base) == style_token(word, yellow_base) + colorize(Seq::<char>::empty(), yellow_base));
    assert(style_word(word, yellow_base) + Seq::<char>::empty() =~= style_word(word, yellow_base));
}

/// An informational line is shown as a success exactly when it begins with
/// one of five phrases: the honeypot or the dashboard listening, a migration
/// completed, the decoy active, or the honeypot shut down. Of the migration
/// lines only a completed migration is a success: a requested or ignored
/// one is plain information.
pub proof fn law_success_phrases(raw: Seq<char>)
    ensures
        is_success_message(raw) <==> {
            ||| starts_with(raw, "EchoTrap listening on"@)
            ||| starts_with(raw, "Migration complete"@)
            ||| starts_with(raw, "Dashboard listening on"@)
            ||| starts_with(raw, "[DECOY] Decoy listener active"@)
            ||| starts_with(raw, "EchoTrap shut down"@)
        },
        starts_with(raw, "Migration"@) && is_success_message(raw) ==> starts_with(raw, "Migration complete"@),
{
    reveal_strlit("Migration");
    reveal_strlit("EchoTrap listening on");
    reveal_strlit("Dashboard listening on");
    reveal_strlit("[DECOY] Decoy listener active");
    reveal_strlit("EchoTrap shut down");
    if starts_with(raw, "Migration"@) {
        assert(raw[0] == 'M') by {
            assert(raw.take(9)[0] == raw[0]);
        }
        if starts_with(raw, "EchoTrap listening on"@) {
            assert(raw.take(21)[0] == raw[0]);
        }
        if starts_with(raw, "Dashboard listening on"@) {
            assert(raw.take(22)[0] == raw[0]);
        }
        if starts_with(raw, "[DECOY] Decoy listener active"@) {
            assert(raw.take(29)[0] == raw[0]);
        }
        if starts_with(raw, "EchoTrap shut down"@) {
            assert(raw.take(18)[0] == raw[0]);
        }
    }
}
} // verus!
