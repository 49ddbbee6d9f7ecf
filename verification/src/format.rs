//! The `.env` format: what a text of lines of `KEY=VALUE`, with comments, quotes
//! and the `export` prefix, defines.

use crate::chars::{is_key_char, is_space};
use vstd::prelude::*;

verus! {

/// `s` without the white space at its start.
pub open spec fn trim_start(s: Seq<char>) -> Seq<char>
    decreases s.len(),
{
    if s.len() > 0 && is_space(s.first()) {
        trim_start(s.drop_first())
    } else {
        s
    }
}

/// `s` without the white space at its end.
pub open spec fn trim_end(s: Seq<char>) -> Seq<char>
    decreases s.len(),
{
    if s.len() > 0 && is_space(s.last()) {
        trim_end(s.drop_last())
    } else {
        s
    }
}

/// `s` without the white space at its start and at its end.
pub open spec fn trim(s: Seq<char>) -> Seq<char> {
    trim_end(trim_start(s))
}

/// What [`trim_start`] removes: it returns the number `k` of characters removed, all
/// of them white space, and what it leaves does not start with white space.
pub proof fn lemma_trim_start(s: Seq<char>) -> (k: int)
    ensures
        0 <= k <= s.len(),
        trim_start(s) == s.skip(k),
        forall|j: int| 0 <= j < k ==> is_space(#[trigger] s[j]),
        k < s.len() ==> !is_space(s[k]),
    decreases s.len(),
{
    if s.len() > 0 && is_space(s.first()) {
        let k = lemma_trim_start(s.drop_first());
        assert forall|j: int| 0 <= j < k + 1 implies is_space(#[trigger] s[j]) by {
            if j > 0 {
                assert(s[j] == s.drop_first()[j - 1]);
            }
        }
        k + 1
    } else {
        0
    }
}

/// What [`trim_end`] keeps: it returns the number `k` of characters kept, the
/// characters after them are all white space, and what it keeps does not end in
/// white space.
pub proof fn lemma_trim_end(s: Seq<char>) -> (k: int)
    ensures
        0 <= k <= s.len(),
        trim_end(s) == s.take(k),
        forall|j: int| k <= j < s.len() ==> is_space(#[trigger] s[j]),
        k > 0 ==> !is_space(s[k - 1]),
    decreases s.len(),
{
    if s.len() > 0 && is_space(s.last()) {
        let k = lemma_trim_end(s.drop_last());
        assert forall|j: int| k <= j < s.len() implies is_space(#[trigger] s[j]) by {
            if j < s.len() - 1 {
                assert(s[j] == s.drop_last()[j]);
            }
        }
        k
    } else {
        s.len() as int
    }
}

/// Trimming leaves nothing exactly of the strings that are white space throughout.
pub proof fn lemma_trim_empty(s: Seq<char>)
    ensures
        trim(s).len() == 0 <==> forall|j: int| 0 <= j < s.len() ==> is_space(#[trigger] s[j]),
{
    let k = lemma_trim_start(s);
    let t = s.skip(k);
    lemma_trim_end(t);
    if k < s.len() {
        assert(t[0] == s[k]);
    }
}

/// Trimming a string that is white space, then a core, then white space, where the
/// core is empty or starts and ends with other characters, leaves the core.
pub proof fn lemma_trim_is(s: Seq<char>, a: int, b: int)
    requires
        0 <= a <= b <= s.len(),
        forall|j: int| 0 <= j < a ==> is_space(#[trigger] s[j]),
        forall|j: int| b <= j < s.len() ==> is_space(#[trigger] s[j]),
        a < b ==> !is_space(s[a]) && !is_space(s[b - 1]),
    ensures
        trim(s) == s.subrange(a, b),
{
    let k = lemma_trim_start(s);
    let t = s.skip(k);
    lemma_trim_end(t);
    if a < b {
        assert(t[b - a - 1] == s[b - 1]);
    }
}

/// The lines of a text: the stretches between its line feeds. A text that ends in a
/// line feed has an empty last line.
pub open spec fn lines(text: Seq<char>) -> Seq<Seq<char>>
    decreases text.len(),
    via lines_decreases
{
    match text.index_of_first('\n') {
        Some(i) => seq![text.take(i)] + lines(text.skip(i + 1)),
        None => seq![text],
    }
}

#[via_fn]
proof fn lines_decreases(text: Seq<char>) {
    text.index_of_first_ensures('\n');
}

/// What one line of a file says.
pub enum LineView {
    /// Nothing: the line is empty or a comment.
    Blank,
    /// The line gives `key` the value `value`.
    Entry { key: Seq<char>, value: Seq<char> },
    /// The line is malformed, and `msg` says how.
    Invalid { msg: Seq<char> },
}

/// The word that may stand before an entry.
pub open spec fn export_word() -> Seq<char> {
    seq!['e', 'x', 'p', 'o', 'r', 't']
}

/// A trimmed line without the word `export` and the white space behind it, where
/// the line starts with them.
pub open spec fn strip_export(line: Seq<char>) -> Seq<char> {
    if line.len() > 6 && line.take(6) == export_word() && is_space(line[6]) {
        trim(line.skip(6))
    } else {
        line
    }
}

/// Whether every character of `key` may stand in a key.
pub open spec fn is_key(key: Seq<char>) -> bool {
    forall|i: int| 0 <= i < key.len() ==> is_key_char(#[trigger] key[i])
}

/// A trimmed value without the pair of double quotes, or of single quotes, that
/// encloses it, where there is one. Only the outermost pair is removed.
pub open spec fn unquote(value: Seq<char>) -> Seq<char> {
    if value.len() >= 2 && value.first() == value.last() && (value.first() == '"' || value.first()
        == '\'') {
        value.subrange(1, value.len() - 1)
    } else {
        value
    }
}

/// The message for a line without `=`.
pub open spec fn missing_separator_message() -> Seq<char> {
    "expected KEY=VALUE"@
}

/// The message for a line with nothing before `=`.
pub open spec fn empty_key_message() -> Seq<char> {
    "empty key"@
}

/// The message for a key that holds a character that no key may hold.
pub open spec fn invalid_key_message(key: Seq<char>) -> Seq<char> {
    "invalid key: '"@ + key + "' (expected alphanumeric or underscore)"@
}

/// What the line `raw` says.
pub open spec fn parse_line(raw: Seq<char>) -> LineView {
    let line = trim(raw);
    if line.len() == 0 || line.first() == '#' {
        LineView::Blank
    } else {
        let body = strip_export(line);
        match body.index_of_first('=') {
            None => LineView::Invalid { msg: missing_separator_message() },
            Some(i) => {
                let key = trim(body.take(i));
                let value = trim(body.skip(i + 1));
                if key.len() == 0 {
                    LineView::Invalid { msg: empty_key_message() }
                } else if !is_key(key) {
                    LineView::Invalid { msg: invalid_key_message(key) }
                } else {
                    LineView::Entry { key, value: unquote(value) }
                }
            },
        }
    }
}

/// What a file defines: the value of each key, and the keys that were defined
/// again, once for each time and in the order of those lines.
pub struct EnvView {
    pub values: Map<Seq<char>, Seq<char>>,
    pub duplicates: Seq<Seq<char>>,
}

impl EnvView {
    /// What the empty file defines.
    pub open spec fn empty() -> EnvView {
        EnvView { values: Map::empty(), duplicates: Seq::empty() }
    }

    /// The definitions after one more entry: the entry's value replaces an earlier
    /// one, and its key is then noted as a duplicate.
    pub open spec fn record(self, key: Seq<char>, value: Seq<char>) -> EnvView {
        EnvView {
            values: self.values.insert(key, value),
            duplicates: if self.values.dom().contains(key) {
                self.duplicates.push(key)
            } else {
                self.duplicates
            },
        }
    }
}

/// The first malformed line of a file, counted from 1, and what is wrong with it.
pub struct ParseFailure {
    pub line: nat,
    pub msg: Seq<char>,
}

/// What the given lines define, read from the first to the last, or the first
/// failure among them.
pub open spec fn parse_lines(lines: Seq<Seq<char>>) -> Result<EnvView, ParseFailure>
    decreases lines.len(),
{
    if lines.len() == 0 {
        Ok(EnvView::empty())
    } else {
        match parse_lines(lines.drop_last()) {
            Err(failure) => Err(failure),
            Ok(env) => match parse_line(lines.last()) {
                LineView::Blank => Ok(env),
                LineView::Entry { key, value } => Ok(env.record(key, value)),
                LineView::Invalid { msg } => Err(ParseFailure { line: lines.len(), msg }),
            },
        }
    }
}

/// What the text of a file defines, or its first failure.
pub open spec fn parse(content: Seq<char>) -> Result<EnvView, ParseFailure> {
    parse_lines(lines(content))
}

/// Once a line has failed, the lines after it change nothing.
pub proof fn lemma_failure_persists(before: Seq<Seq<char>>, after: Seq<Seq<char>>)
    requires
        parse_lines(before) is Err,
    ensures
        parse_lines(before + after) == parse_lines(before),
    decreases after.len(),
{
    if after.len() > 0 {
        lemma_failure_persists(before, after.drop_last());
        assert((before + after).drop_last() =~= before + after.drop_last());
    }
}

/// Trimming keeps a stretch of the string: it returns the bounds of that stretch.
pub proof fn lemma_trim_bounds(s: Seq<char>) -> (r: (int, int))
    ensures
        0 <= r.0 <= r.1 <= s.len(),
        trim(s) == s.subrange(r.0, r.1),
{
    let k = lemma_trim_start(s);
    let m = lemma_trim_end(s.skip(k));
    (k, k + m)
}

/// Whether `key` can stand before `=` as it is written: it is not empty, has no
/// white space at its ends, holds no `=`, starts no comment and does not start with
/// the word `export` and white space.
pub open spec fn is_plain(key: Seq<char>) -> bool {
    &&& key.len() > 0
    &&& !is_space(key.first())
    &&& !is_space(key.last())
    &&& key.first() != '#'
    &&& !key.contains('=')
    &&& strip_export(key) == key
}

/// A line made of a plain key, `=` and a value gives the key the value, trimmed
/// and without its quotes, where every character of the key may stand in a key,
/// and else fails with the message on invalid keys.
pub proof fn lemma_split_line(key: Seq<char>, value: Seq<char>)
    requires
        is_plain(key),
    ensures
        parse_line(key + seq!['='] + value) == if is_key(key) {
            LineView::Entry { key, value: unquote(trim(value)) }
        } else {
            LineView::Invalid { msg: invalid_key_message(key) }
        },
{
    let raw = key + seq!['='] + value;
    let n = key.len() as int;
    // The value's core lies between `lo` and `hi`.
    let lo = lemma_trim_start(value);
    let hi = lo + lemma_trim_end(value.skip(lo));
    assert(trim(value) =~= value.subrange(lo, hi));
    assert forall|j: int| hi <= j < value.len() implies is_space(#[trigger] value[j]) by {
        assert(value[j] == value.skip(lo)[j - lo]);
    }
    // The line ends where the value's core ends, or behind `=`.
    let end = if lo < hi {
        n + 1 + hi
    } else {
        n + 1
    };
    lemma_trim_is(raw, 0, end);
    let line = raw.subrange(0, end);
    assert(strip_export(line) == line) by {
        if line.len() > 6 && line.take(6) == export_word() && is_space(line[6]) {
            if n < 6 {
                assert(line.take(6)[n] == '=');
            } else if n > 6 {
                assert(line.take(6) =~= key.take(6));
                lemma_trim_bounds(key.skip(6));
            }
        }
    }
    line.index_of_first_ensures('=');
    assert(line[n] == '=');
    assert(line.take(n) =~= key);
    let rest = line.skip(n + 1);
    if lo < hi {
        lemma_trim_is(rest, lo, hi);
        assert(rest.subrange(lo, hi) =~= value.subrange(lo, hi));
    } else {
        assert(trim(rest) =~= value.subrange(lo, hi));
    }
}

/// Every key that is not empty and made of characters that may stand in a key
/// is plain.
pub proof fn lemma_key_is_plain(key: Seq<char>)
    requires
        key.len() > 0,
        is_key(key),
    ensures
        is_plain(key),
{
}

/// A line made of a key, `=` and a value gives the key the value, trimmed and
/// without its quotes.
pub proof fn lemma_key_value_line(key: Seq<char>, value: Seq<char>)
    requires
        key.len() > 0,
        is_key(key),
    ensures
        parse_line(key + seq!['='] + value) == (LineView::Entry {
            key,
            value: unquote(trim(value)),
        }),
{
    lemma_key_is_plain(key);
    lemma_split_line(key, value);
}

/// A line without `=` fails with the message on the missing separator, unless it
/// is empty or a comment.
pub proof fn lemma_line_without_separator(raw: Seq<char>)
    requires
        !raw.contains('='),
    ensures
        parse_line(raw) == if trim(raw).len() == 0 || trim(raw).first() == '#' {
            LineView::Blank
        } else {
            LineView::Invalid { msg: missing_separator_message() }
        },
{
    let (a, b) = lemma_trim_bounds(raw);
    let line = trim(raw);
    let body = strip_export(line);
    body.index_of_first_ensures('=');
    if body.contains('=') && body != line {
        lemma_trim_bounds(line.skip(6));
    }
}

/// The lines of two texts joined by a line feed are the lines of the first and
/// then the lines of the second.
pub proof fn lemma_lines_append(first: Seq<char>, second: Seq<char>)
    ensures
        lines(first + seq!['\n'] + second) == lines(first) + lines(second),
    decreases first.len(),
{
    let text = first + seq!['\n'] + second;
    let n = first.len() as int;
    first.index_of_first_ensures('\n');
    text.index_of_first_ensures('\n');
    assert(text[n] == '\n');
    match first.index_of_first('\n') {
        Some(i) => {
            assert(text[i] == first[i]);
            assert(text.take(i) =~= first.take(i));
            assert(text.skip(i + 1) =~= first.skip(i + 1) + seq!['\n'] + second);
            lemma_lines_append(first.skip(i + 1), second);
        },
        None => {
            assert(text.take(n) =~= first);
            assert(text.skip(n + 1) =~= second);
        },
    }
}

/// A pair of double quotes or of single quotes around a string is removed, and
/// nothing else.
pub proof fn lemma_unquote_quoted(inner: Seq<char>, quote: char)
    requires
        quote == '"' || quote == '\'',
    ensures
        unquote(seq![quote] + inner + seq![quote]) == inner,
{
}

/// A text without a line feed is one line.
pub proof fn lemma_one_line(text: Seq<char>)
    requires
        !text.contains('\n'),
    ensures
        lines(text) == seq![text],
{
    text.index_of_first_ensures('\n');
}

/// A file of the one line `KEY=VALUE` defines `KEY` alone, with the value trimmed
/// and without its quotes, and no duplicate.
pub proof fn lemma_parse_key_value(key: Seq<char>, value: Seq<char>)
    requires
        key.len() > 0,
        is_key(key),
        !value.contains('\n'),
    ensures
        parse(key + seq!['='] + value) == Ok::<EnvView, ParseFailure>(
            EnvView {
                values: Map::empty().insert(key, unquote(trim(value))),
                duplicates: Seq::empty(),
            },
        ),
{
    let text = key + seq!['='] + value;
    lemma_one_line(text);
    lemma_key_value_line(key, value);
    assert(parse_lines(seq![text].drop_last()) == Ok::<EnvView, ParseFailure>(EnvView::empty()));
}

/// A text with one more line defines what the text defines and then what the line
/// says: a blank line changes nothing, an entry is recorded, and a malformed line
/// fails with its number, unless the text has failed before.
pub proof fn lemma_parse_appended_line(text: Seq<char>, line: Seq<char>)
    requires
        !line.contains('\n'),
    ensures
        parse(text + seq!['\n'] + line) == match parse(text) {
            Err(failure) => Err(failure),
            Ok(env) => match parse_line(line) {
                LineView::Blank => Ok(env),
                LineView::Entry { key, value } => Ok(env.record(key, value)),
                LineView::Invalid { msg } => Err(
                    ParseFailure { line: lines(text).len() + 1, msg },
                ),
            },
        },
{
    lemma_lines_append(text, line);
    lemma_one_line(line);
    let all = lines(text) + seq![line];
    assert(all.drop_last() =~= lines(text));
}

/// Where lines parse, a key has the value that the last line that defines it gives.
pub proof fn lemma_last_entry_wins_in(lines: Seq<Seq<char>>, i: int)
    requires
        0 <= i < lines.len(),
        parse_lines(lines) is Ok,
        parse_line(lines[i]) is Entry,
        forall|j: int|
            i < j < lines.len() && parse_line(#[trigger] lines[j]) is Entry ==> parse_line(
                lines[j],
            )->key != parse_line(lines[i])->key,
    ensures
        parse_lines(lines)->Ok_0.values.dom().contains(parse_line(lines[i])->key),
        parse_lines(lines)->Ok_0.values[parse_line(lines[i])->key] == parse_line(lines[i])->value,
    decreases lines.len(),
{
    if i < lines.len() - 1 {
        lemma_last_entry_wins_in(lines.drop_last(), i);
    }
}

/// Where a file parses, looking up the key of any of its entries gives the value of
/// that entry, unless a later line defines the key again.
pub proof fn lemma_last_entry_wins(content: Seq<char>, i: int)
    requires
        parse(content) is Ok,
        0 <= i < lines(content).len(),
        parse_line(lines(content)[i]) is Entry,
        forall|j: int|
            i < j < lines(content).len() && parse_line(#[trigger] lines(content)[j]) is Entry
                ==> parse_line(lines(content)[j])->key != parse_line(lines(content)[i])->key,
    ensures
        parse(content)->Ok_0.values.dom().contains(parse_line(lines(content)[i])->key),
        parse(content)->Ok_0.values[parse_line(lines(content)[i])->key] == parse_line(
            lines(content)[i],
        )->value,
{
    lemma_last_entry_wins_in(lines(content), i);
}

} // verus!
