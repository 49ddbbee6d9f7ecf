//! What a run on a file prints, and the code with which it exits.

use crate::format::EnvView;
use crate::parse::ParsedEnvFile;
use crate::validate::{ReportView, ValidationResult};
use vstd::prelude::*;

verus! {

/// The words after the key in the line on a key that the file defines.
pub open spec fn present_tail() -> Seq<char> {
    " is present in the environment file"@
}

/// The words after the key in the line on a key that the file lacks.
pub open spec fn missing_tail() -> Seq<char> {
    " is missing from the environment file"@
}

/// The words after the key in the line on a key with a blank value.
pub open spec fn empty_tail() -> Seq<char> {
    " is empty in the environment file"@
}

/// The words after the key in the line on a key defined more than once.
pub open spec fn duplicated_tail() -> Seq<char> {
    " is duplicated in the environment file"@
}

/// The line that says of `key` what `tail` says.
pub open spec fn line_on(key: Seq<char>, tail: Seq<char>) -> Seq<char> {
    "key "@ + key + tail
}

/// The line that says whether the file defines the required key `key`.
pub open spec fn presence_line(env: EnvView, key: Seq<char>) -> Seq<char> {
    if env.values.dom().contains(key) {
        line_on(key, present_tail())
    } else {
        line_on(key, missing_tail())
    }
}

/// The lines of a run: one on each required key, in the order given, then one
/// on each missing key, on each key with a blank value and on each duplicated key
/// of the report.
pub open spec fn report_lines_of(env: EnvView, required: Seq<Seq<char>>, report: ReportView) -> Seq<
    Seq<char>,
> {
    required.map_values(|k: Seq<char>| presence_line(env, k)) + report.missing.map_values(
        |k: Seq<char>| line_on(k, missing_tail()),
    ) + report.empty.map_values(|k: Seq<char>| line_on(k, empty_tail()))
        + report.duplicates.map_values(|k: Seq<char>| line_on(k, duplicated_tail()))
}

/// The exit code of a run that read its files: 1 where blank values count as a failure and
/// the report names one, else 0.
pub open spec fn exit_code_of(report: ReportView, strict_empty: bool) -> int {
    if strict_empty && report.empty.len() > 0 {
        1
    } else {
        0
    }
}

/// Writes the line on `key`.
fn write_line(key: &str, tail: &str) -> (line: String)
    ensures
        line@ == line_on(key@, tail@),
{
    let mut line = String::from_str("key ");
    line.append(key);
    line.append(tail);
    line
}

/// Appends the line on each of `keys` to `lines`.
fn push_lines(lines: &mut Vec<String>, keys: &Vec<String>, tail: &str)
    ensures
        final(lines).deep_view() == old(lines).deep_view() + keys.deep_view().map_values(
            |k: Seq<char>| line_on(k, tail@),
        ),
{
    let ghost before = lines.deep_view();
    let ghost wanted = keys.deep_view().map_values(|k: Seq<char>| line_on(k, tail@));
    for i in 0..keys.len()
        invariant
            wanted == keys.deep_view().map_values(|k: Seq<char>| line_on(k, tail@)),
            lines.deep_view() == before + wanted.take(i as int),
    {
        let ghost so_far = lines.deep_view();
        lines.push(write_line(keys[i].as_str(), tail));
        assert(lines.deep_view() =~= so_far.push(wanted[i as int]));
    }
}

/// The lines that a run prints.
pub fn report_lines(env: &ParsedEnvFile, required: &[String], report: &ValidationResult) -> (lines:
    Vec<String>)
    ensures
        lines.deep_view() == report_lines_of(env@, required.deep_view(), report@),
{
    let ghost wanted = required.deep_view().map_values(|k: Seq<char>| presence_line(env@, k));
    let mut lines: Vec<String> = Vec::new();
    for i in 0..required.len()
        invariant
            wanted == required.deep_view().map_values(|k: Seq<char>| presence_line(env@, k)),
            lines.deep_view() == wanted.take(i as int),
    {
        let ghost so_far = lines.deep_view();
        let key = required[i].as_str();
        let line = if env.values.contains_key(key) {
            write_line(key, " is present in the environment file")
        } else {
            write_line(key, " is missing from the environment file")
        };
        lines.push(line);
        assert(lines.deep_view() =~= so_far.push(wanted[i as int]));
    }
    push_lines(&mut lines, &report.missing, " is missing from the environment file");
    push_lines(&mut lines, &report.empty, " is empty in the environment file");
    push_lines(&mut lines, &report.duplicates, " is duplicated in the environment file");
    lines
}

/// The code with which a run that read its files exits.
pub fn exit_code(report: &ValidationResult, strict_empty: bool) -> (code: i32)
    ensures
        code == exit_code_of(report@, strict_empty),
{
    if report.has_errors() && strict_empty && !report.empty.is_empty() {
        1
    } else {
        0
    }
}

} // verus!
