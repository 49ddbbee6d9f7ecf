use envcheck::parse::{parse_env_file, parse_req_keys, ParsedEnvFile};
use envcheck::report::{exit_code, report_lines};
use envcheck::validate::{is_blank_str, validate_env_file, ValidationResult};

fn parsed(content: &str) -> ParsedEnvFile {
    parse_env_file(content).unwrap()
}

fn strings(items: &[&str]) -> Vec<String> {
    items.iter().map(|s| s.to_string()).collect()
}

#[test]
fn required_key_that_is_absent_is_missing() {
    let env = parsed("A=1");
    let required = parse_req_keys("A=\nB=\n").unwrap();
    assert_eq!(required, strings(&["A", "B"]));
    let report = validate_env_file(&env, &required);
    assert_eq!(report.missing, strings(&["B"]));
    assert!(report.empty.is_empty());
    assert!(report.duplicates.is_empty());
    assert!(report.has_errors());
}

#[test]
fn white_space_value_is_empty() {
    let report = validate_env_file(&parsed("A=  "), &[]);
    assert_eq!(report.empty, strings(&["A"]));
    assert!(report.missing.is_empty());
    assert!(report.duplicates.is_empty());
    assert!(report.has_errors());
}

#[test]
fn quoted_white_space_is_empty() {
    let report = validate_env_file(&parsed("C=\" \t \"\nB=\"\"\nA=' x '\nD=\n"), &[]);
    assert_eq!(report.empty, strings(&["B", "C", "D"]));
}

#[test]
fn missing_keys_are_sorted_and_unique() {
    let env = parsed("M=1");
    let required = strings(&["Z", "b", "M", "A", "Z", "a", "A", "_"]);
    let report = validate_env_file(&env, &required);
    assert_eq!(report.missing, strings(&["A", "Z", "_", "a", "b"]));
}

#[test]
fn empty_keys_are_sorted() {
    let env = parsed("z=\nB=\na=x\nA=  \n_=\n0=\n");
    let report = validate_env_file(&env, &[]);
    assert_eq!(report.empty, strings(&["0", "A", "B", "_", "z"]));
}

#[test]
fn duplicates_are_sorted_and_unique() {
    let env = parsed("B=1\nA=1\nB=2\nA=2\nB=3\nC=1");
    assert_eq!(env.duplicates, strings(&["B", "A", "B"]));
    let report = validate_env_file(&env, &[]);
    assert_eq!(report.duplicates, strings(&["A", "B"]));
    assert!(report.missing.is_empty());
    assert!(report.empty.is_empty());
    assert!(report.has_errors());
}

#[test]
fn empty_goes_by_last_value() {
    let report = validate_env_file(&parsed("A=\nA=1\nB=2\nB=\n"), &strings(&["A", "B"]));
    assert_eq!(report.empty, strings(&["B"]));
    assert_eq!(report.duplicates, strings(&["A", "B"]));
    assert!(report.missing.is_empty());
}

#[test]
fn clean_file_has_no_errors() {
    let report = validate_env_file(&parsed("A=1\nB=2"), &strings(&["A", "B"]));
    assert!(report.missing.is_empty());
    assert!(report.empty.is_empty());
    assert!(report.duplicates.is_empty());
    assert!(!report.has_errors());
}

#[test]
fn has_errors_when_any_list_is_filled() {
    assert!(!ValidationResult::default().has_errors());
    let mut report = ValidationResult::default();
    report.missing.push("A".to_string());
    assert!(report.has_errors());
    let mut report = ValidationResult::default();
    report.empty.push("A".to_string());
    assert!(report.has_errors());
    let mut report = ValidationResult::default();
    report.duplicates.push("A".to_string());
    assert!(report.has_errors());
}

#[test]
fn default_report_is_empty() {
    let report = ValidationResult::default();
    assert!(report.missing.is_empty());
    assert!(report.empty.is_empty());
    assert!(report.duplicates.is_empty());
}

#[test]
fn blank_is_empty_or_white_space() {
    assert!(is_blank_str(""));
    assert!(is_blank_str(" \t\r\n"));
    assert!(is_blank_str("\u{a0}\u{3000}"));
    assert!(!is_blank_str(" x "));
    assert!(!is_blank_str("\u{200b}"));
    assert!(!is_blank_str("\"\""));
}

#[test]
fn strict_empty_exits_with_one() {
    let report = validate_env_file(&parsed("A=\nB=1"), &[]);
    assert_eq!(exit_code(&report, true), 1);
    assert_eq!(exit_code(&report, false), 0);
}

#[test]
fn other_findings_exit_with_zero() {
    let report = validate_env_file(&parsed("A=1\nA=2"), &strings(&["B"]));
    assert!(report.has_errors());
    assert_eq!(exit_code(&report, true), 0);
    assert_eq!(exit_code(&report, false), 0);
    let clean = validate_env_file(&parsed("A=1"), &strings(&["A"]));
    assert_eq!(exit_code(&clean, true), 0);
    assert_eq!(exit_code(&clean, false), 0);
}

#[test]
fn lines_name_each_key_and_its_defect() {
    let env = parsed("B=\nA=1\nB=\nC=2\nC=3");
    let required = parse_req_keys("D=\nA=\nB=\n").unwrap();
    let report = validate_env_file(&env, &required);
    assert_eq!(
        report_lines(&env, &required, &report),
        strings(&[
            "key A is present in the environment file",
            "key B is present in the environment file",
            "key D is missing from the environment file",
            "key D is missing from the environment file",
            "key B is empty in the environment file",
            "key B is duplicated in the environment file",
            "key C is duplicated in the environment file",
        ])
    );
}

#[test]
fn lines_follow_the_order_of_required_keys() {
    let env = parsed("A=1");
    let required = strings(&["Z", "A", "Z"]);
    let report = validate_env_file(&env, &required);
    assert_eq!(
        report_lines(&env, &required, &report),
        strings(&[
            "key Z is missing from the environment file",
            "key A is present in the environment file",
            "key Z is missing from the environment file",
            "key Z is missing from the environment file",
        ])
    );
}

#[test]
fn clean_file_without_required_keys_prints_nothing() {
    let env = parsed("A=1");
    let report = validate_env_file(&env, &[]);
    assert!(report_lines(&env, &[], &report).is_empty());
}
