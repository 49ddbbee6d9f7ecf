//! The parser of `.env` files.

use crate::chars::{
    char_is_key_char, char_is_space, is_key_char, is_space, string_of, to_chars,
};
use crate::env_map::EnvMap;
use crate::error::AppError;
use crate::format::{
    export_word, is_key, lemma_failure_persists, lines, parse, parse_line, parse_lines,
    strip_export, trim, trim_end, trim_start, EnvView, LineView, ParseFailure,
};
use crate::order::lists;
use vstd::prelude::*;

verus! {

/// A parsed file.
#[derive(Debug)]
pub struct ParsedEnvFile {
    /// The value of each key; where a key was defined several times, the last one.
    pub values: EnvMap,
    /// The keys that were defined again, once for each time, in the order of
    /// those lines.
    pub duplicates: Vec<String>,
}

impl View for ParsedEnvFile {
    type V = EnvView;

    open spec fn view(&self) -> EnvView {
        EnvView { values: self.values@, duplicates: self.duplicates.deep_view() }
    }
}

impl Clone for ParsedEnvFile {
    fn clone(&self) -> (copy: ParsedEnvFile)
        ensures
            copy@ == self@,
    {
        let values = self.values.clone();
        let duplicates = self.duplicates.clone();
        ParsedEnvFile { values, duplicates }
    }
}

/// One line of a file, as read.
enum Line {
    Blank,
    Entry { key: String, value: String },
    Invalid { msg: String },
}

impl View for Line {
    type V = LineView;

    closed spec fn view(&self) -> LineView {
        match self {
            Line::Blank => LineView::Blank,
            Line::Entry { key, value } => LineView::Entry { key: key@, value: value@ },
            Line::Invalid { msg } => LineView::Invalid { msg: msg@ },
        }
    }
}

/// The bounds of `text[lo..hi]` without the white space at its two ends.
fn trim_bounds(text: &[char], lo: usize, hi: usize) -> (r: (usize, usize))
    requires
        lo <= hi <= text.len(),
    ensures
        lo <= r.0 <= r.1 <= hi,
        text@.subrange(r.0 as int, r.1 as int) == trim(text@.subrange(lo as int, hi as int)),
{
    let mut a = lo;
    while a < hi && char_is_space(text[a])
        invariant
            lo <= a <= hi <= text.len(),
            trim_start(text@.subrange(lo as int, hi as int)) == trim_start(
                text@.subrange(a as int, hi as int),
            ),
        decreases hi - a,
    {
        assert(text@.subrange(a as int, hi as int).drop_first() =~= text@.subrange(
            a + 1,
            hi as int,
        ));
        a += 1;
    }
    let mut b = hi;
    while a < b && char_is_space(text[b - 1])
        invariant
            a <= b <= hi <= text.len(),
            trim_end(text@.subrange(a as int, hi as int)) == trim_end(
                text@.subrange(a as int, b as int),
            ),
        decreases b - a,
    {
        assert(text@.subrange(a as int, b as int).drop_last() =~= text@.subrange(
            a as int,
            b - 1,
        ));
        b -= 1;
    }
    (a, b)
}

/// The index of the first `c` in `text[lo..hi]`, or `hi` where there is none.
fn find(text: &[char], lo: usize, hi: usize, c: char) -> (at: usize)
    requires
        lo <= hi <= text.len(),
    ensures
        lo <= at <= hi,
        match text@.subrange(lo as int, hi as int).index_of_first(c) {
            Some(i) => at == lo + i && at < hi,
            None => at == hi,
        },
{
    let ghost part = text@.subrange(lo as int, hi as int);
    let mut at = lo;
    while at < hi && text[at] != c
        invariant
            lo <= at <= hi <= text.len(),
            part == text@.subrange(lo as int, hi as int),
            forall|j: int| 0 <= j < at - lo ==> part[j] != c,
        decreases hi - at,
    {
        at += 1;
    }
    proof {
        part.index_of_first_ensures(c);
        if at < hi {
            assert(part[at - lo] == c);
        }
    }
    at
}

/// Whether `text[lo..hi]` starts with the word `export` and white space behind it.
fn has_export(text: &[char], lo: usize, hi: usize) -> (b: bool)
    requires
        lo <= hi <= text.len(),
    ensures
        b == {
            let line = text@.subrange(lo as int, hi as int);
            line.len() > 6 && line.take(6) == export_word() && is_space(line[6])
        },
{
    if hi - lo <= 6 {
        return false;
    }
    let ghost line = text@.subrange(lo as int, hi as int);
    let found = text[lo] == 'e' && text[lo + 1] == 'x' && text[lo + 2] == 'p' && text[lo + 3] == 'o'
        && text[lo + 4] == 'r' && text[lo + 5] == 't';
    proof {
        let word = line.take(6);
        if found {
            assert(word =~= export_word());
        }
    }
    found && char_is_space(text[lo + 6])
}

/// Whether every character of `text[lo..hi]` may stand in a key.
fn is_key_at(text: &[char], lo: usize, hi: usize) -> (b: bool)
    requires
        lo <= hi <= text.len(),
    ensures
        b == is_key(text@.subrange(lo as int, hi as int)),
{
    let ghost key = text@.subrange(lo as int, hi as int);
    let mut at = lo;
    while at < hi
        invariant
            lo <= at <= hi <= text.len(),
            key == text@.subrange(lo as int, hi as int),
            forall|j: int| 0 <= j < at - lo ==> is_key_char(#[trigger] key[j]),
        decreases hi - at,
    {
        if !char_is_key_char(text[at]) {
            assert(!is_key_char(key[at - lo]));
            return false;
        }
        at += 1;
    }
    true
}

/// Reads the line `text[lo..hi]`.
fn parse_line_at(text: &[char], lo: usize, hi: usize) -> (line: Line)
    requires
        lo <= hi <= text.len(),
    ensures
        line@ == parse_line(text@.subrange(lo as int, hi as int)),
        !(line is Blank) ==> lo < hi,
{
    let (a, b) = trim_bounds(text, lo, hi);
    if a == b || text[a] == '#' {
        return Line::Blank;
    }
    let ghost trimmed = text@.subrange(a as int, b as int);
    let (a, b) = if has_export(text, a, b) {
        assert(trimmed.skip(6) =~= text@.subrange(a + 6, b as int));
        trim_bounds(text, a + 6, b)
    } else {
        (a, b)
    };
    let ghost body = text@.subrange(a as int, b as int);
    let eq = find(text, a, b, '=');
    if eq == b {
        return Line::Invalid { msg: String::from_str("expected KEY=VALUE") };
    }
    assert(body.take(eq - a) =~= text@.subrange(a as int, eq as int));
    assert(body.skip(eq - a + 1) =~= text@.subrange(eq + 1, b as int));
    let (key_lo, key_hi) = trim_bounds(text, a, eq);
    let (value_lo, value_hi) = trim_bounds(text, eq + 1, b);
    if key_lo == key_hi {
        return Line::Invalid { msg: String::from_str("empty key") };
    }
    let key = string_of(text, key_lo, key_hi);
    if !is_key_at(text, key_lo, key_hi) {
        let mut msg = String::from_str("invalid key: '");
        msg.append(key.as_str());
        msg.append("' (expected alphanumeric or underscore)");
        return Line::Invalid { msg };
    }
    let ghost value = text@.subrange(value_lo as int, value_hi as int);
    let quoted = value_hi - value_lo >= 2 && text[value_lo] == text[value_hi - 1]
        && (text[value_lo] == '"' || text[value_lo] == '\'');
    let value = if quoted {
        assert(value.subrange(1, value.len() - 1) =~= text@.subrange(value_lo + 1, value_hi - 1));
        string_of(text, value_lo + 1, value_hi - 1)
    } else {
        string_of(text, value_lo, value_hi)
    };
    Line::Entry { key, value }
}

/// Parses the text of a `.env` file.
///
/// Each line is trimmed; empty lines and lines that start with `#` are skipped. A
/// line may start with the word `export`. What stands before the first `=` is the
/// key, what stands after it the value, both trimmed; one pair of quotes around the
/// value is removed. The first malformed line ends the parse with its number and
/// a message.
pub fn parse_env_file(content: &str) -> (r: Result<ParsedEnvFile, AppError>)
    ensures
        match parse(content@) {
            Ok(env) => r matches Ok(parsed) && parsed@ == env,
            Err(failure) => r matches Err(AppError::ParseError { line, msg }) && line
                == failure.line && msg@ == failure.msg,
        },
{
    let chars = to_chars(content);
    let text = chars.as_slice();
    let mut values = EnvMap::new();
    let mut duplicates: Vec<String> = Vec::new();
    let mut start: usize = 0;
    let mut number: usize = 0;
    let ghost mut done: Seq<Seq<char>> = Seq::empty();
    assert(text@.skip(0) =~= text@);
    assert(duplicates.deep_view() =~= EnvView::empty().duplicates);
    loop
        invariant
            text@ == content@,
            number <= start <= text.len(),
            done.len() == number,
            lines(text@) == done + lines(text@.skip(start as int)),
            parse_lines(done) == Ok::<EnvView, ParseFailure>(
                EnvView { values: values@, duplicates: duplicates.deep_view() },
            ),
        decreases text.len() - start,
    {
        let end = find(text, start, text.len(), '\n');
        let ghost rest = text@.skip(start as int);
        let ghost raw = text@.subrange(start as int, end as int);
        let ghost env = EnvView { values: values@, duplicates: duplicates.deep_view() };
        proof {
            assert(done.push(raw).drop_last() =~= done);
            if end < text.len() {
                assert(rest.take(end - start) =~= raw);
                assert(rest.skip(end - start + 1) =~= text@.skip(end + 1));
                assert(lines(text@) =~= done.push(raw) + lines(text@.skip(end + 1)));
            } else {
                assert(lines(text@) =~= done.push(raw));
            }
        }
        match parse_line_at(text, start, end) {
            Line::Blank => {},
            Line::Entry { key, value } => {
                if values.contains_key(key.as_str()) {
                    duplicates.push(key.clone());
                }
                values.insert(key, value);
                assert(duplicates.deep_view() =~= env.record(key@, value@).duplicates);
            },
            Line::Invalid { msg } => {
                proof {
                    if end < text.len() {
                        lemma_failure_persists(done.push(raw), lines(text@.skip(end + 1)));
                    }
                }
                return Err(AppError::ParseError { line: number + 1, msg });
            },
        }
        if end == text.len() {
            return Ok(ParsedEnvFile { values, duplicates });
        }
        start = end + 1;
        number += 1;
        proof {
            done = done.push(raw);
        }
    }
}

/// The keys that the text of a `.env` file defines, in ascending order, each once.
pub fn parse_req_keys(content: &str) -> (r: Result<Vec<String>, AppError>)
    ensures
        match parse(content@) {
            Ok(env) => r matches Ok(keys) && lists(keys.deep_view(), env.values.dom()),
            Err(failure) => r matches Err(AppError::ParseError { line, msg }) && line
                == failure.line && msg@ == failure.msg,
        },
{
    match parse_env_file(content) {
        Ok(parsed) => Ok(parsed.values.keys()),
        Err(e) => Err(e),
    }
}

} // verus!
