use shell::common::{
    parse_completion_args_from_line, split_line_is_defined, split_line_to_prefix_and_last_completion,
};

#[test]
fn test_parse_command_name() {
    assert_eq!(
        [
            "docker".to_string(),
            "123".to_string(),
            "something".to_string()
        ],
        parse_completion_args_from_line("docker something 123")
    );

    assert_eq!(
        [
            "docker".to_string(),
            "something".to_string(),
            "docker".to_string()
        ],
        parse_completion_args_from_line("docker something")
    );

    assert_eq!(
        [
            "docker".to_string(),
            "".to_string(),
            "something".to_string()
        ],
        parse_completion_args_from_line("docker something ")
    );
}

#[test]
fn test_split_line_to_prefix_and_last_completion() {
    assert_eq!(
        ("docker something", "123"),
        split_line_to_prefix_and_last_completion("docker something 123"),
    );

    assert_eq!(
        ("docker something 123", ""),
        split_line_to_prefix_and_last_completion("docker something 123 "),
    );
}

#[test]
fn completion_args_of_a_single_word() {
    assert_eq!(
        ["ls".to_string(), "ls".to_string(), "".to_string()],
        parse_completion_args_from_line("ls")
    );
}

#[test]
fn completion_args_with_double_spaces() {
    assert_eq!(
        ["git".to_string(), "".to_string(), "".to_string()],
        parse_completion_args_from_line("git  ")
    );
}

#[test]
fn split_line_puts_the_line_back_together() {
    let line = "cargo build --rel";
    let (prefix, last) = split_line_to_prefix_and_last_completion(line);
    assert_eq!(format!("{} {}", prefix, last), line);
    assert!(!last.contains(' '));
}

#[test]
fn split_line_with_non_ascii_last_word_cuts_by_bytes() {
    assert!(split_line_is_defined("ab xé"));
    assert_eq!(
        ("ab ", "é"),
        split_line_to_prefix_and_last_completion("ab xé"),
    );
    assert!(!split_line_is_defined("cat é.txt"));
    assert!(!split_line_is_defined("nospace"));
    assert!(split_line_is_defined("é x"));
    assert_eq!(("é", "x"), split_line_to_prefix_and_last_completion("é x"));
}

#[test]
fn completed_word_is_the_last_part() {
    let line = "docker run img";
    let args = parse_completion_args_from_line(line);
    let (_, last) = split_line_to_prefix_and_last_completion(line);
    assert_eq!(args[1], last);
}
