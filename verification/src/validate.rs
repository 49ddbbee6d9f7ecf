//! Validation of a parsed file against the keys that it must define.

use crate::chars::{char_is_space, is_space};
use crate::format::{lemma_trim_empty, trim, EnvView};
use crate::order::{insert_ascending, lemma_ascending_list_unique, lists};
use crate::parse::ParsedEnvFile;
use vstd::prelude::*;

verus! {

/// Whether a value is empty or white space throughout.
pub open spec fn is_blank(value: Seq<char>) -> bool {
    trim(value).len() == 0
}

/// The required keys that the file does not define.
pub open spec fn missing_keys(env: EnvView, required: Seq<Seq<char>>) -> Set<Seq<char>> {
    Set::new(|k: Seq<char>| required.contains(k) && !env.values.dom().contains(k))
}

/// The keys to which the file gives a blank value.
pub open spec fn empty_keys(env: EnvView) -> Set<Seq<char>> {
    Set::new(|k: Seq<char>| env.values.dom().contains(k) && is_blank(env.values[k]))
}

/// The keys that the file defines more than once.
pub open spec fn duplicate_keys(env: EnvView) -> Set<Seq<char>> {
    env.duplicates.to_set()
}

/// What a validation found. Each list is in ascending order and names no key twice.
#[derive(Debug)]
pub struct ValidationResult {
    /// The required keys that the file does not define.
    pub missing: Vec<String>,
    /// The keys to which the file gives a blank value.
    pub empty: Vec<String>,
    /// The keys that the file defines more than once.
    pub duplicates: Vec<String>,
}

/// The three lists of a [`ValidationResult`].
pub struct ReportView {
    pub missing: Seq<Seq<char>>,
    pub empty: Seq<Seq<char>>,
    pub duplicates: Seq<Seq<char>>,
}

impl View for ValidationResult {
    type V = ReportView;

    open spec fn view(&self) -> ReportView {
        ReportView {
            missing: self.missing.deep_view(),
            empty: self.empty.deep_view(),
            duplicates: self.duplicates.deep_view(),
        }
    }
}

impl Default for ValidationResult {
    fn default() -> (report: ValidationResult)
        ensures
            report@.missing.len() == 0,
            report@.empty.len() == 0,
            report@.duplicates.len() == 0,
    {
        ValidationResult { missing: Vec::new(), empty: Vec::new(), duplicates: Vec::new() }
    }
}

impl ValidationResult {
    /// Whether the validation found anything.
    pub fn has_errors(&self) -> (b: bool)
        ensures
            b == (self@.missing.len() > 0 || self@.empty.len() > 0 || self@.duplicates.len() > 0),
    {
        !self.missing.is_empty() || !self.empty.is_empty() || !self.duplicates.is_empty()
    }
}

/// Whether `report` is the report on the file `env` for the required keys `required`.
pub open spec fn reports(report: ReportView, env: EnvView, required: Seq<Seq<char>>) -> bool {
    &&& lists(report.missing, missing_keys(env, required))
    &&& lists(report.empty, empty_keys(env))
    &&& lists(report.duplicates, duplicate_keys(env))
}

/// A file and a list of required keys have one report only.
pub proof fn lemma_report_unique(
    a: ReportView,
    b: ReportView,
    env: EnvView,
    required: Seq<Seq<char>>,
)
    requires
        reports(a, env, required),
        reports(b, env, required),
    ensures
        a == b,
{
    lemma_ascending_list_unique(a.missing, b.missing);
    lemma_ascending_list_unique(a.empty, b.empty);
    lemma_ascending_list_unique(a.duplicates, b.duplicates);
}

/// Decides [`is_blank`].
pub fn is_blank_str(value: &str) -> (b: bool)
    ensures
        b == is_blank(value@),
{
    for c in it: value.chars()
        invariant
            it.seq() == value@,
            forall|j: int| 0 <= j < it.index() ==> is_space(#[trigger] value@[j]),
    {
        if !char_is_space(c) {
            proof {
                lemma_trim_empty(value@);
            }
            return false;
        }
    }
    proof {
        lemma_trim_empty(value@);
    }
    true
}

/// The strings of `keys` of which `holds` is true.
spec fn among(keys: Seq<Seq<char>>, holds: spec_fn(Seq<char>) -> bool) -> Set<Seq<char>> {
    Set::new(|k: Seq<char>| keys.contains(k) && holds(k))
}

/// One more key adds itself to the chosen keys if `holds` is true of it.
proof fn lemma_among_next(keys: Seq<Seq<char>>, i: int, holds: spec_fn(Seq<char>) -> bool)
    requires
        0 <= i < keys.len(),
    ensures
        among(keys.take(i + 1), holds) == if holds(keys[i]) {
            among(keys.take(i), holds).insert(keys[i])
        } else {
            among(keys.take(i), holds)
        },
{
    let shorter = keys.take(i);
    let longer = keys.take(i + 1);
    assert forall|k: Seq<char>| longer.contains(k) == (shorter.contains(k) || k == keys[i]) by {
        if k == keys[i] {
            assert(longer[i] == k);
        }
    }
}

/// Validates a parsed file: reports the required keys that it lacks, the keys with
/// a blank value and the keys defined more than once.
pub fn validate_env_file(env: &ParsedEnvFile, required: &[String]) -> (report: ValidationResult)
    ensures
        reports(report@, env@, required.deep_view()),
{
    let ghost wanted = required.deep_view();
    let ghost absent = |k: Seq<char>| !env@.values.dom().contains(k);
    let mut missing: Vec<String> = Vec::new();
    assert(missing.deep_view().to_set() =~= among(wanted.take(0), absent));
    for i in 0..required.len()
        invariant
            wanted == required.deep_view(),
            absent == |k: Seq<char>| !env@.values.dom().contains(k),
            lists(missing.deep_view(), among(wanted.take(i as int), absent)),
    {
        let key = &required[i];
        proof {
            lemma_among_next(wanted, i as int, absent);
        }
        if !env.values.contains_key(key.as_str()) {
            insert_ascending(&mut missing, key.clone());
        }
    }
    assert(wanted.take(required.len() as int) =~= wanted);
    assert(among(wanted, absent) =~= missing_keys(env@, wanted));

    let keys = env.values.keys();
    let ghost defined = keys.deep_view();
    let ghost blank = |k: Seq<char>| is_blank(env@.values[k]);
    let mut empty: Vec<String> = Vec::new();
    assert(empty.deep_view().to_set() =~= among(defined.take(0), blank));
    for i in 0..keys.len()
        invariant
            defined == keys.deep_view(),
            defined.to_set() == env@.values.dom(),
            blank == |k: Seq<char>| is_blank(env@.values[k]),
            lists(empty.deep_view(), among(defined.take(i as int), blank)),
    {
        let key = &keys[i];
        proof {
            lemma_among_next(defined, i as int, blank);
        }
        let is_empty = match env.values.get(key.as_str()) {
            Some(value) => is_blank_str(value.as_str()),
            None => false,
        };
        if is_empty {
            insert_ascending(&mut empty, key.clone());
        }
    }
    assert(defined.take(keys.len() as int) =~= defined);
    assert(among(defined, blank) =~= empty_keys(env@));

    let ghost repeated = env.duplicates.deep_view();
    let ghost any = |k: Seq<char>| true;
    let mut duplicates: Vec<String> = Vec::new();
    assert(duplicates.deep_view().to_set() =~= among(repeated.take(0), any));
    for i in 0..env.duplicates.len()
        invariant
            repeated == env.duplicates.deep_view(),
            any == |k: Seq<char>| true,
            lists(duplicates.deep_view(), among(repeated.take(i as int), any)),
    {
        proof {
            lemma_among_next(repeated, i as int, any);
        }
        insert_ascending(&mut duplicates, env.duplicates[i].clone());
    }
    assert(repeated.take(env.duplicates.len() as int) =~= repeated);
    assert(among(repeated, any) =~= duplicate_keys(env@));
    ValidationResult { missing, empty, duplicates }
}

} // verus!
