use std::collections::{BTreeMap, BTreeSet};

use envcheck::error::AppError;
use envcheck::parse::{parse_env_file, parse_req_keys};
use envcheck::report::{exit_code, report_lines};
use envcheck::validate::validate_env_file;

/// A parser written with the string functions of the standard library.
fn by_std(content: &str) -> Result<(BTreeMap<String, String>, Vec<String>), (usize, String)> {
    let mut values: BTreeMap<String, String> = BTreeMap::new();
    let mut duplicates: Vec<String> = Vec::new();
    for (index, raw_line) in content.split('\n').enumerate() {
        let line = raw_line.trim();
        if line.is_empty() || line.starts_with('#') {
            continue;
        }
        let line = match line.strip_prefix("export") {
            Some(rest) if rest.starts_with(char::is_whitespace) => rest.trim(),
            _ => line,
        };
        let (key, value) = match line.split_once('=') {
            Some(pair) => pair,
            None => return Err((index + 1, "expected KEY=VALUE".to_string())),
        };
        let key = key.trim();
        if key.is_empty() {
            return Err((index + 1, "empty key".to_string()));
        }
        if !key.chars().all(|c| c.is_ascii_alphanumeric() || c == '_') {
            return Err((
                index + 1,
                format!("invalid key: '{key}' (expected alphanumeric or underscore)"),
            ));
        }
        let mut value = value.trim().to_string();
        if value.len() >= 2
            && (value.starts_with('"') && value.ends_with('"')
                || value.starts_with('\'') && value.ends_with('\''))
        {
            value = value[1..value.len() - 1].to_string();
        }
        if values.contains_key(key) {
            duplicates.push(key.to_string());
        }
        values.insert(key.to_string(), value);
    }
    Ok((values, duplicates))
}

struct Dice(u64);

impl Dice {
    fn roll(&mut self, sides: usize) -> usize {
        self.0 = self
            .0
            .wrapping_mul(6364136223846793005)
            .wrapping_add(1442695040888963407);
        ((self.0 >> 33) as usize) % sides
    }
}

const PIECES: [&str; 30] = [
    "A", "B", "a", "_", "1", "KEY", "export", "export ", "export\t", "=", "=", "=", " ", " ", "\t",
    "\n", "\n", "\n", "\r\n", "#", "\"", "'", "\"x\"", "-", "é", "\u{a0}", "\u{3000}", "value",
    "\u{200b}", "\r",
];

fn text(dice: &mut Dice, most: usize) -> String {
    let mut s = String::new();
    for _ in 0..dice.roll(most) {
        s.push_str(PIECES[dice.roll(PIECES.len())]);
    }
    s
}

fn compare(content: &str) {
    match (parse_env_file(content), by_std(content)) {
        (Ok(parsed), Ok((values, duplicates))) => {
            assert_eq!(
                parsed.values.keys(),
                values.keys().cloned().collect::<Vec<String>>(),
                "{:?}",
                content
            );
            for (key, value) in &values {
                assert_eq!(parsed.values.get(key), Some(value), "{:?}", content);
                assert!(parsed.values.contains_key(key));
            }
            assert_eq!(parsed.duplicates, duplicates, "{:?}", content);
            assert_eq!(
                parse_req_keys(content).unwrap(),
                values.keys().cloned().collect::<Vec<String>>()
            );
        }
        (Err(AppError::ParseError { line, msg }), Err(expected)) => {
            assert_eq!((line, msg), expected, "{:?}", content);
            assert!(parse_req_keys(content).is_err());
        }
        (ours, theirs) => panic!("{:?}: {:?} against {:?}", content, ours, theirs),
    }
}

#[test]
fn parser_agrees_with_std_on_short_texts() {
    let mut dice = Dice(1);
    for _ in 0..20000 {
        compare(&text(&mut dice, 8));
    }
}

#[test]
fn parser_agrees_with_std_on_long_texts() {
    let mut dice = Dice(2);
    for _ in 0..3000 {
        compare(&text(&mut dice, 60));
    }
}

#[test]
fn parser_agrees_with_std_on_files_of_entries() {
    let mut dice = Dice(3);
    for _ in 0..2000 {
        let mut content = String::new();
        for _ in 0..dice.roll(12) {
            let line = match dice.roll(6) {
                0 => format!("# {}", text(&mut dice, 4).replace('\n', " ")),
                1 => String::new(),
                2 => format!("export {}={}", PIECES[dice.roll(6)], text(&mut dice, 3).replace('\n', "")),
                _ => format!(" {} = {} ", PIECES[dice.roll(6)], text(&mut dice, 4).replace('\n', "")),
            };
            content.push_str(&line);
            content.push('\n');
        }
        compare(&content);
    }
}

#[test]
fn validation_agrees_with_sets() {
    let mut dice = Dice(4);
    let names = ["A", "B", "C", "a", "_", "Z9", "AB"];
    for _ in 0..3000 {
        let mut content = String::new();
        for _ in 0..dice.roll(10) {
            let value = ["", " ", "x", "\"\"", "\" \"", "1"][dice.roll(6)];
            content.push_str(&format!("{}={}\n", names[dice.roll(names.len())], value));
        }
        let mut required: Vec<String> = Vec::new();
        for _ in 0..dice.roll(6) {
            required.push(names[dice.roll(names.len())].to_string());
        }
        let env = parse_env_file(&content).unwrap();
        let (values, duplicates) = by_std(&content).unwrap();
        let report = validate_env_file(&env, &required);

        let missing: BTreeSet<String> = required
            .iter()
            .filter(|k| !values.contains_key(*k))
            .cloned()
            .collect();
        let empty: BTreeSet<String> = values
            .iter()
            .filter(|(_, v)| v.trim().is_empty())
            .map(|(k, _)| k.clone())
            .collect();
        let repeated: BTreeSet<String> = duplicates.iter().cloned().collect();
        assert_eq!(report.missing, missing.iter().cloned().collect::<Vec<String>>());
        assert_eq!(report.empty, empty.iter().cloned().collect::<Vec<String>>());
        assert_eq!(report.duplicates, repeated.iter().cloned().collect::<Vec<String>>());
        assert_eq!(
            report.has_errors(),
            !missing.is_empty() || !empty.is_empty() || !repeated.is_empty()
        );
        assert_eq!(exit_code(&report, true), if empty.is_empty() { 0 } else { 1 });
        assert_eq!(exit_code(&report, false), 0);

        let mut lines: Vec<String> = Vec::new();
        for key in &required {
            if values.contains_key(key) {
                lines.push(format!("key {key} is present in the environment file"));
            } else {
                lines.push(format!("key {key} is missing from the environment file"));
            }
        }
        for key in &missing {
            lines.push(format!("key {key} is missing from the environment file"));
        }
        for key in &empty {
            lines.push(format!("key {key} is empty in the environment file"));
        }
        for key in &repeated {
            lines.push(format!("key {key} is duplicated in the environment file"));
        }
        assert_eq!(report_lines(&env, &required, &report), lines);
    }
}

#[test]
fn appended_line_is_read_after_the_text() {
    let texts = ["", "A=1", "A=1\nB=2\n", "# c\n\nA=\"x\"", "oops", "A=1\n=2"];
    let lines = ["", "  ", "# c", "A=2", "export C = 'c' ", "B", "=x", "a b=1"];
    for text in texts {
        for line in lines {
            let joined = format!("{text}\n{line}");
            compare(&joined);
            let before = parse_env_file(text);
            let after = parse_env_file(&joined);
            match (before, after) {
                (Err(AppError::ParseError { line: l1, msg: m1 }), Err(AppError::ParseError { line: l2, msg: m2 })) => {
                    assert_eq!((l1, m1), (l2, m2));
                }
                (Ok(_), Err(AppError::ParseError { line: l2, .. })) => {
                    assert_eq!(l2, text.split('\n').count() + 1);
                }
                (Ok(b), Ok(a)) => {
                    for key in b.values.keys() {
                        assert!(a.values.contains_key(&key));
                    }
                    assert!(a.duplicates.len() >= b.duplicates.len());
                    assert_eq!(a.duplicates[..b.duplicates.len()], b.duplicates[..]);
                }
                (b, a) => panic!("{:?} then {:?}", b, a),
            }
        }
    }
}
