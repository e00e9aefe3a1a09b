use shell::arg_parser::{ArgParser, UnidentifiedCommand};
use shell::command::Command;
use shell::common::{parse_command, CommandWithContext};

fn words(line: &str) -> (String, Vec<String>) {
    let c: UnidentifiedCommand = ArgParser::new(line).parse().unwrap();
    (c.name, c.args)
}

fn one(line: &str) -> CommandWithContext {
    let mut cmds = parse_command(line).0;
    assert_eq!(cmds.len(), 1);
    cmds.remove(0)
}

#[test]
fn plain_words_split_on_whitespace() {
    let (name, args) = words("  echo   hello\tworld  ");
    assert_eq!(name, "echo");
    assert_eq!(args, vec!["hello".to_string(), "world".to_string()]);
}

#[test]
fn plain_words_round_trip() {
    let ws = vec!["cat", "a.txt", "b-c", "x=1"];
    let (name, args) = words(&ws.join(" "));
    assert_eq!(name, "cat");
    assert_eq!(args, vec!["a.txt".to_string(), "b-c".to_string(), "x=1".to_string()]);
}

#[test]
fn single_quotes_are_literal() {
    let (name, args) = words("'a  \\b \"c\"'");
    assert_eq!(name, "a  \\b \"c\"");
    assert!(args.is_empty());
}

#[test]
fn double_quotes_keep_spaces() {
    let (_, args) = words("echo \"a  b\" 'c d'");
    assert_eq!(args, vec!["a  b".to_string(), "c d".to_string()]);
}

#[test]
fn adjacent_quotes_join_one_word() {
    let (_, args) = words("echo 'a''b' \"c\"\"d\" 'e'\"f\" \"g\"'h' 'i'j");
    assert_eq!(
        args,
        vec!["ab".to_string(), "cd".to_string(), "ef".to_string(), "gh".to_string(), "ij".to_string()]
    );
}

#[test]
fn backslash_outside_quotes_escapes() {
    let (_, args) = words("echo a\\ b c\\\\d \\'e\\'");
    assert_eq!(args, vec!["a b".to_string(), "c\\d".to_string(), "'e'".to_string()]);
}

#[test]
fn backslash_inside_double_quotes() {
    let (_, args) = words("echo \"a\\\"b\" \"c\\nd\" \"e\\\\f\"");
    assert_eq!(args, vec!["a\"b".to_string(), "c\\nd".to_string(), "e\\f".to_string()]);
}

#[test]
fn backslash_inside_single_quotes_stays() {
    let (_, args) = words("echo 'a\\nb'");
    assert_eq!(args, vec!["a\\nb".to_string()]);
}

#[test]
fn backslash_at_end_is_dropped() {
    let (_, args) = words("echo ab\\");
    assert_eq!(args, vec!["ab".to_string()]);
}

#[test]
fn unclosed_quote_drops_its_word() {
    let (name, args) = words("echo 'abc");
    assert_eq!(name, "echo");
    assert!(args.is_empty());
}

#[test]
fn empty_line_is_an_empty_command() {
    let c = ArgParser::new("   ").parse().unwrap();
    assert_eq!(c.name, "");
    assert!(c.args.is_empty());
    assert!(c.stdout_redirect.is_none());
    assert!(c.stderr_redirect.is_none());
}

#[test]
fn redirections_are_taken_out() {
    let c = ArgParser::new("echo hi > out.txt there 2>> err.log").parse().unwrap();
    assert_eq!(c.args, vec!["hi".to_string(), "there".to_string()]);
    let out = c.stdout_redirect.unwrap();
    assert_eq!(out.filename, "out.txt");
    assert!(!out.is_append);
    let err = c.stderr_redirect.unwrap();
    assert_eq!(err.filename, "err.log");
    assert!(err.is_append);
}

#[test]
fn last_redirection_wins() {
    let c = ArgParser::new("ls 1> a >> b").parse().unwrap();
    assert!(c.args.is_empty());
    let out = c.stdout_redirect.unwrap();
    assert_eq!(out.filename, "b");
    assert!(out.is_append);
}

#[test]
fn trailing_operator_stays_a_word() {
    let c = ArgParser::new("echo a >").parse().unwrap();
    assert_eq!(c.args, vec!["a".to_string(), ">".to_string()]);
    assert!(c.stdout_redirect.is_none());
}

#[test]
fn stderr_overwrite_redirection() {
    let c = ArgParser::new("cat nope 2> e.txt").parse().unwrap();
    assert_eq!(c.args, vec!["nope".to_string()]);
    let err = c.stderr_redirect.unwrap();
    assert_eq!(err.filename, "e.txt");
    assert!(!err.is_append);
}

#[test]
fn exit_commands() {
    assert!(matches!(one("exit").cmd, Command::Exit(0)));
    assert!(matches!(one("exit 3").cmd, Command::Exit(3)));
    assert!(matches!(one("exit -2147483648").cmd, Command::Exit(-2147483648)));
    let refused = one("exit abc");
    assert!(matches!(refused.cmd, Command::Invalid));
    assert_eq!(refused.original, "");
    assert!(matches!(one("exit 1 2").cmd, Command::Invalid));
    assert!(matches!(one("exit 2147483648").cmd, Command::Invalid));
}

#[test]
fn history_commands() {
    assert!(matches!(one("history").cmd, Command::History(usize::MAX)));
    assert!(matches!(one("history 5").cmd, Command::History(5)));
    match one("history -r f.txt").cmd {
        Command::HistoryAppend(p) => assert_eq!(p, "f.txt"),
        _ => panic!("expected HistoryAppend"),
    }
    match one("history -w f.txt").cmd {
        Command::HistorySave(p, append) => {
            assert_eq!(p, "f.txt");
            assert!(!append);
        },
        _ => panic!("expected HistorySave"),
    }
    match one("history -a g").cmd {
        Command::HistorySave(p, append) => {
            assert_eq!(p, "g");
            assert!(append);
        },
        _ => panic!("expected HistorySave"),
    }
    assert!(matches!(one("history x").cmd, Command::Invalid));
    assert!(matches!(one("history -x f").cmd, Command::Invalid));
}

#[test]
fn wrongly_used_builtins_are_invalid_with_their_context() {
    let c = one("type a b > out");
    assert!(matches!(c.cmd, Command::Invalid));
    assert_eq!(c.original, "type a b > out");
    assert_eq!(c.stdout_redirect.unwrap().filename, "out");
    assert!(matches!(one("cd").cmd, Command::Invalid));
    assert!(matches!(one("complete -x y").cmd, Command::Invalid));
    assert!(matches!(one("declare a=b=c").cmd, Command::Invalid));
}

#[test]
fn other_commands() {
    match one("echo  a   b").cmd {
        Command::Echo(parts) => assert_eq!(parts, vec!["a".to_string(), "b".to_string()]),
        _ => panic!("expected Echo"),
    }
    match one("type ls").cmd {
        Command::Type(w) => assert_eq!(w, "ls"),
        _ => panic!("expected Type"),
    }
    assert!(matches!(one("pwd").cmd, Command::Pwd));
    assert!(matches!(one("jobs").cmd, Command::Jobs));
    match one("cd ~/src").cmd {
        Command::Cd(p) => assert_eq!(p, "~/src"),
        _ => panic!("expected Cd"),
    }
    match one("complete -C /bin/s git").cmd {
        Command::CompleteSet { script_path, command } => {
            assert_eq!(script_path, "/bin/s");
            assert_eq!(command, "git");
        },
        _ => panic!("expected CompleteSet"),
    }
    match one("complete -p git").cmd {
        Command::CompleteGet(c) => assert_eq!(c, "git"),
        _ => panic!("expected CompleteGet"),
    }
    match one("complete -r git").cmd {
        Command::CompleteRemove(c) => assert_eq!(c, "git"),
        _ => panic!("expected CompleteRemove"),
    }
    match one("declare NAME=value").cmd {
        Command::Declare(n, v) => {
            assert_eq!(n, "NAME");
            assert_eq!(v, "value");
        },
        _ => panic!("expected Declare"),
    }
    match one("declare -p NAME").cmd {
        Command::DeclarePrint(n) => assert_eq!(n, "NAME"),
        _ => panic!("expected DeclarePrint"),
    }
    assert!(matches!(one("").cmd, Command::Empty));
    match one("ls -la /tmp").cmd {
        Command::Unknown(n, a) => {
            assert_eq!(n, "ls");
            assert_eq!(a, vec!["-la".to_string(), "/tmp".to_string()]);
        },
        _ => panic!("expected Unknown"),
    }
    let c = one("ls > o");
    assert_eq!(c.original, "ls > o");
    assert!(!c.is_job);
}

#[test]
fn command_names() {
    assert_eq!(one("exit 1").cmd.name(), "exit");
    assert_eq!(one("history -a f").cmd.name(), "history");
    assert_eq!(one("complete -p x").cmd.name(), "complete");
    assert_eq!(one("declare -p x").cmd.name(), "declare");
    assert_eq!(one("grep x").cmd.name(), "grep");
    assert_eq!(one("").cmd.name(), "");
    assert_eq!(one("'my prog' a").cmd.name(), "my prog");
}

#[test]
fn scanner_steps() {
    let p = ArgParser::new("ab");
    assert!(!p.at_end());
    assert_eq!(p.current(), 'a');
    assert_eq!(p.peek(), 'b');
    assert_eq!(p.peekn(1), 'b');
    assert!(p.has_n_more(1));
    assert!(!p.has_n_more(2));
    let mut q = ArgParser::new("a");
    q.next();
    assert!(q.at_end());
}
