use shell::command::Command;
use shell::common::{home_path_expand, is_shell_builtin, parse_command};
use shell::completion::{
    completion_options, completion_request, file_candidates_for, fix_path_display, fix_path_ending,
    script_candidates_for, text_less, CompletionRequest, ExecutableNames, FileMatch,
};
use shell::completion_specs::CompletionSpecs;
use shell::job::{job_started_message, JobStatus, Jobs};
use shell::number::{decimal_string, parse_i32, parse_usize};
use shell::redirect::Redirect;
use shell::shell_context::{
    cd_error_message, command_not_found_message, executable_lookup_action, history_save_range,
    history_text, missing_redirect_message, output_plan, redirect_failure, Action, OutputTarget,
    ShellContext,
};
use shell::text::{join, pad_to_width, replace, split_char, trim, trim_end};

fn strings(v: &[&str]) -> Vec<String> {
    v.iter().map(|s| s.to_string()).collect()
}

fn command(line: &str) -> Command {
    parse_command(line).0.remove(0).cmd
}

fn printed(a: Action) -> (Option<String>, Option<String>) {
    match a {
        Action::Print { out, err } => (out, err),
        _ => panic!("expected Print"),
    }
}

#[test]
fn numbers_parse_like_from_str_radix() {
    assert_eq!(parse_i32("42"), Some(42));
    assert_eq!(parse_i32("+42"), Some(42));
    assert_eq!(parse_i32("-42"), Some(-42));
    assert_eq!(parse_i32("2147483647"), Some(i32::MAX));
    assert_eq!(parse_i32("-2147483648"), Some(i32::MIN));
    assert_eq!(parse_i32("2147483648"), None);
    assert_eq!(parse_i32("-2147483649"), None);
    assert_eq!(parse_i32(""), None);
    assert_eq!(parse_i32("-"), None);
    assert_eq!(parse_i32("+"), None);
    assert_eq!(parse_i32("1a"), None);
    assert_eq!(parse_usize("18446744073709551615"), Some(usize::MAX));
    assert_eq!(parse_usize("18446744073709551616"), None);
    assert_eq!(parse_usize("+7"), Some(7));
    assert_eq!(parse_usize("-1"), None);
    assert_eq!(parse_usize("007"), Some(7));
    for n in [0usize, 7, 10, 99, 1234, usize::MAX] {
        assert_eq!(decimal_string(n), n.to_string());
        assert_eq!(parse_usize(&decimal_string(n)), Some(n));
    }
}

#[test]
fn text_helpers() {
    assert_eq!(trim("  a b \n"), "a b");
    assert_eq!(trim_end("  a b \t\n"), "  a b");
    assert_eq!(trim("\u{3000}x\u{a0}"), "x");
    assert_eq!(split_char("a=b=", '='), strings(&["a", "b", ""]));
    assert_eq!(split_char("", '='), strings(&[""]));
    assert_eq!(join(&strings(&["a", "b", "c"]), ", "), "a, b, c");
    assert_eq!(join(&strings(&[]), " "), "");
    assert_eq!(join(&split_char("x y  z", ' '), " "), "x y  z");
    assert_eq!(replace("sleep 5 & x &", " &", ""), "sleep 5 x");
    assert_eq!(replace("&&&", "&&", "+"), "+&");
    assert_eq!(pad_to_width("Done", 8), "Done    ");
    assert_eq!(pad_to_width("Running", 3), "Running");
}

#[test]
fn builtins_are_known() {
    for b in ["echo", "type", "exit", "pwd", "cd", "history", "jobs", "complete", "declare"] {
        assert!(is_shell_builtin(b));
    }
    assert!(!is_shell_builtin("ls"));
    assert!(!is_shell_builtin(""));
}

#[test]
fn home_paths_expand() {
    let home = Some("/home/u".to_string());
    assert_eq!(home_path_expand("~".to_string(), home.clone()), Some("/home/u".to_string()));
    assert_eq!(home_path_expand("~/src".to_string(), home.clone()), Some("/home/u/src".to_string()));
    assert_eq!(home_path_expand("~/".to_string(), home.clone()), Some("/home/u/".to_string()));
    assert_eq!(home_path_expand("~//etc".to_string(), home.clone()), Some("/etc".to_string()));
    assert_eq!(
        home_path_expand("~/a".to_string(), Some("/home/u/".to_string())),
        Some("/home/u/a".to_string())
    );
    assert_eq!(home_path_expand("/tmp".to_string(), None), Some("/tmp".to_string()));
    assert_eq!(home_path_expand("~user".to_string(), None), Some("~user".to_string()));
    assert_eq!(home_path_expand("~".to_string(), None), None);
    assert_eq!(home_path_expand("~/x".to_string(), None), None);
}

#[test]
fn executable_names_are_sorted_and_unique() {
    let names = ExecutableNames::new(strings(&["zsh", "cat", "echo", "cat", "ecco"]));
    let c = names.candidates("ec");
    let shown: Vec<String> = c.iter().map(|x| x.display.clone()).collect();
    assert_eq!(shown, strings(&["ecco", "echo"]));
    assert_eq!(c[1].replacement, "echo ");
    let all: Vec<String> = names.candidates("").iter().map(|x| x.display.clone()).collect();
    let mut sorted = all.clone();
    sorted.sort();
    sorted.dedup();
    assert_eq!(all, sorted);
    assert!(all.contains(&"declare".to_string()));
    assert!(all.contains(&"zsh".to_string()));
    assert!(names.candidates("q").is_empty());
}

#[test]
fn text_order_is_string_order() {
    assert!(text_less("a", "b"));
    assert!(text_less("ab", "abc"));
    assert!(!text_less("abc", "ab"));
    assert!(!text_less("a", "a"));
    assert!(text_less("Z", "a"));
    assert!(text_less("z", "é"));
}

#[test]
fn script_output_lines() {
    assert_eq!(completion_options("one\n two \r\n\nthree"), strings(&["one", "two", "", "three"]));
    assert_eq!(completion_options("a\n"), strings(&["a"]));
    assert_eq!(completion_options(""), strings(&[]));
    assert_eq!(completion_options("\n"), strings(&[""]));
    let c = script_candidates_for("git", &strings(&["push", "pull"]));
    assert_eq!(c.len(), 2);
    assert_eq!(c[0].display, "push");
    assert_eq!(c[0].replacement, "git push ");
    assert_eq!(c[1].replacement, "git pull ");
}

#[test]
fn path_texts() {
    assert_eq!(fix_path_ending("src/"), "src/");
    assert_eq!(fix_path_ending("main.rs"), "main.rs ");
    assert_eq!(fix_path_ending(""), " ");
    assert_eq!(fix_path_display("src", true), "src/");
    assert_eq!(fix_path_display("a.rs", false), "a.rs");
}

#[test]
fn completion_requests() {
    let mut specs = CompletionSpecs::new();
    specs.insert("git".to_string(), "/bin/gitc".to_string());
    match completion_request("git pu", &specs) {
        CompletionRequest::Script { script, args, prefix } => {
            assert_eq!(script, "/bin/gitc");
            assert_eq!(args, ["git".to_string(), "pu".to_string(), "git".to_string()]);
            assert_eq!(prefix, "git");
        },
        _ => panic!("expected Script"),
    }
    assert!(matches!(completion_request("ls sr", &specs), CompletionRequest::Filenames));
    assert!(matches!(completion_request("ec", &specs), CompletionRequest::Executables));
}

#[test]
fn completion_specs_map() {
    let mut specs = CompletionSpecs::new();
    assert_eq!(specs.get("a"), None);
    specs.insert("a".to_string(), "s1".to_string());
    specs.insert("b".to_string(), "s2".to_string());
    specs.insert("a".to_string(), "s3".to_string());
    assert_eq!(specs.get("a"), Some("s3".to_string()));
    assert_eq!(specs.get("b"), Some("s2".to_string()));
    specs.remove("a");
    assert_eq!(specs.get("a"), None);
    assert_eq!(specs.get("b"), Some("s2".to_string()));
    specs.remove("zzz");
    assert_eq!(specs.get("b"), Some("s2".to_string()));
}

#[test]
fn completion_read_after_write() {
    let mut ctx = ShellContext::new(CompletionSpecs::new());
    let a = ctx.execute_command(command("complete -p git"), "complete -p git");
    assert_eq!(printed(a), (None, Some("complete: git: no completion specification".to_string())));
    let a = ctx.execute_command(command("complete -C /x/y git"), "complete -C /x/y git");
    assert!(matches!(a, Action::Nothing));
    let a = ctx.execute_command(command("complete -p git"), "complete -p git");
    assert_eq!(printed(a), (Some("complete -C '/x/y' git".to_string()), None));
    assert_eq!(ctx.completions().get("git"), Some("/x/y".to_string()));
    ctx.execute_command(command("complete -r git"), "complete -r git");
    let a = ctx.execute_command(command("complete -p git"), "complete -p git");
    assert_eq!(printed(a), (None, Some("complete: git: no completion specification".to_string())));
}

#[test]
fn command_actions() {
    let mut ctx = ShellContext::new(CompletionSpecs::new());
    let a = ctx.execute_command(command("echo a  'b  c'"), "echo a  'b  c'");
    assert_eq!(printed(a), (Some("a b  c".to_string()), Some(String::new())));
    let a = ctx.execute_command(command("type echo"), "type echo");
    assert_eq!(printed(a), (Some("echo is a shell builtin".to_string()), None));
    match ctx.execute_command(command("type ls"), "type ls") {
        Action::LookupExecutable(w) => assert_eq!(w, "ls"),
        _ => panic!("expected LookupExecutable"),
    }
    assert!(matches!(ctx.execute_command(command("exit 4"), "exit 4"), Action::Exit(4)));
    assert!(matches!(ctx.execute_command(command("pwd"), "pwd"), Action::PrintWorkingDir));
    assert!(matches!(ctx.execute_command(command("jobs"), "jobs"), Action::ReportJobs));
    assert!(matches!(ctx.execute_command(command("history 3"), "history 3"), Action::ShowHistory(3)));
    assert!(matches!(ctx.execute_command(command(""), ""), Action::Nothing));
    match ctx.execute_command(command("cd /tmp"), "cd /tmp") {
        Action::ChangeDir(p) => assert_eq!(p, "/tmp"),
        _ => panic!("expected ChangeDir"),
    }
    match ctx.execute_command(command("history -a h"), "history -a h") {
        Action::SaveHistory(p, append) => {
            assert_eq!(p, "h");
            assert!(append);
        },
        _ => panic!("expected SaveHistory"),
    }
    match ctx.execute_command(command("history -r h"), "history -r h") {
        Action::AppendHistory(p) => assert_eq!(p, "h"),
        _ => panic!("expected AppendHistory"),
    }
    match ctx.execute_command(command("grep -n x"), "grep -n x") {
        Action::Spawn { name, args } => {
            assert_eq!(name, "grep");
            assert_eq!(args, strings(&["-n", "x"]));
        },
        _ => panic!("expected Spawn"),
    }
    match ctx.execute_command(Command::Invalid, "  type a b \n") {
        Action::ReportInvalid(m) => assert_eq!(m, "type a b: command not found"),
        _ => panic!("expected ReportInvalid"),
    }
}

#[test]
fn lookup_messages() {
    let a = executable_lookup_action("ls", Some("/bin/ls".to_string()));
    assert_eq!(printed(a), (Some("ls is /bin/ls".to_string()), Some(String::new())));
    let a = executable_lookup_action("nope", None);
    assert_eq!(printed(a), (None, Some("nope: not found".to_string())));
    assert_eq!(command_not_found_message("foo"), "foo: command not found");
    assert_eq!(cd_error_message("/x"), "cd: /x: No such file or directory");
    assert_eq!(missing_redirect_message("echo", "d/f"), "echo: d/f: No such file or directory");
}

#[test]
fn history_listing() {
    let h = strings(&["ls", "pwd", "echo hi"]);
    assert_eq!(history_text(&h, usize::MAX), "\t1  ls\n\t2  pwd\n\t3  echo hi");
    assert_eq!(history_text(&h, 2), "\t2  pwd\n\t3  echo hi");
    assert_eq!(history_text(&h, 0), "");
    assert_eq!(history_text(&strings(&[]), 5), "");
    assert_eq!(history_save_range(3, true, 1), (1, 3));
    assert_eq!(history_save_range(3, false, 1), (0, 1));
}

#[test]
fn job_table() {
    let mut jobs = Jobs::new();
    assert_eq!(jobs.push("sleep 5 &".to_string()), 1);
    assert_eq!(jobs.push("sleep 6 &".to_string()), 2);
    assert_eq!(jobs.push("sleep 7 &".to_string()), 3);
    assert_eq!(jobs.len(), 3);
    let st = vec![JobStatus::Running, JobStatus::Done, JobStatus::Error];
    let all = jobs.status_report(false, &st);
    assert_eq!(
        all,
        vec![
            format!("[1]   {:<24}sleep 5 &", "Running"),
            format!("[2]-  {:<24}sleep 6", "Done"),
            format!("[3]+  {:<24}sleep 7", "Error"),
        ]
    );
    let done = jobs.status_report(true, &st);
    assert_eq!(done, vec![format!("[2]-  {:<24}sleep 6", "Done")]);
    jobs.clean_up(&st);
    assert_eq!(jobs.len(), 1);
    assert_eq!(jobs.counter(), 3);
    assert_eq!(jobs.push("x".to_string()), 4);
    let again = jobs.status_report(false, &vec![JobStatus::Running, JobStatus::Running]);
    assert_eq!(again[0], format!("[1]-  {:<24}sleep 5 &", "Running"));
    assert_eq!(again[1], format!("[4]+  {:<24}x &", "Running"));
    assert_eq!(job_started_message(2, 4242), "[2] 4242");
}

#[test]
fn output_goes_to_pipe_then_file_then_terminal() {
    assert_eq!(output_plan("x", true, true), (OutputTarget::Pipe, true));
    assert_eq!(output_plan("", true, false), (OutputTarget::Pipe, true));
    assert_eq!(output_plan("x", false, true), (OutputTarget::RedirectFile, true));
    assert_eq!(output_plan("", false, true), (OutputTarget::RedirectFile, false));
    assert_eq!(output_plan("x", false, false), (OutputTarget::Terminal, true));
    assert_eq!(output_plan("", false, false), (OutputTarget::Terminal, false));
}

#[test]
fn redirect_failures() {
    let r = Some(Redirect { filename: "no/such/f".to_string(), is_append: false });
    assert_eq!(redirect_failure("echo", &r, true), None);
    assert_eq!(
        redirect_failure("echo", &r, false),
        Some("echo: no/such/f: No such file or directory".to_string())
    );
    assert_eq!(redirect_failure("echo", &None, false), None);
}

#[test]
fn file_candidates() {
    let m = vec![
        FileMatch { display: "src".to_string(), replacement: "cat src/".to_string(), is_dir: true },
        FileMatch { display: "a.rs".to_string(), replacement: "cat a.rs".to_string(), is_dir: false },
    ];
    let c = file_candidates_for(&m);
    assert_eq!(c.len(), 2);
    assert_eq!(c[0].display, "src/");
    assert_eq!(c[0].replacement, "cat src/");
    assert_eq!(c[1].display, "a.rs");
    assert_eq!(c[1].replacement, "cat a.rs ");
}

#[test]
fn name_is_first_word_of_unquoted_line() {
    for line in ["  grep -n x > out", "echo a b", "history 3", "   ", "declare a=b", "jobs"] {
        let c = parse_command(line).0.remove(0).cmd;
        let first = line.split_whitespace().next().unwrap_or("");
        assert_eq!(c.name(), first);
    }
}

#[test]
fn failed_redirect_stops_the_command() {
    let mut ctx = ShellContext::new(CompletionSpecs::new());
    let out = Some(Redirect { filename: "o/x".to_string(), is_append: false });
    let err = Some(Redirect { filename: "e/y".to_string(), is_append: true });
    let r = ctx.execute_with_redirects(command("complete -C s git"), "", &out, false, &err, true);
    assert_eq!(r.err(), Some("complete: o/x: No such file or directory".to_string()));
    assert_eq!(ctx.completions().get("git"), None);
    let r = ctx.execute_with_redirects(command("complete -C s git"), "", &out, true, &err, false);
    assert_eq!(r.err(), Some("complete: e/y: No such file or directory".to_string()));
    assert_eq!(ctx.completions().get("git"), None);
    let r = ctx.execute_with_redirects(command("complete -C s git"), "", &out, true, &err, true);
    assert!(matches!(r, Ok(Action::Nothing)));
    assert_eq!(ctx.completions().get("git"), Some("s".to_string()));
    let r = ctx.execute_with_redirects(command("echo hi"), "", &None, false, &None, false);
    match r {
        Ok(Action::Print { out, .. }) => assert_eq!(out, Some("hi".to_string())),
        _ => panic!("expected Print"),
    }
}
