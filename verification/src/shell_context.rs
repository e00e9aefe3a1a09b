//! What the shell does for a command: the decisions, as actions for the
//! caller to carry out, and the texts that it prints.

use vstd::prelude::*;

use crate::command::{Command, CommandView};
use crate::common::{is_shell_builtin, shell_builtin_commands};
use crate::completion_specs::CompletionSpecs;
use crate::number::{decimal, decimal_string};
use crate::text::{join, join_with, trim, trim_end, trim_end_of, trim_of};

verus! {

/// What the caller has to do for a command.
pub enum Action {
    /// Nothing.
    Nothing,
    /// Save the history to the history file, then end the shell with this code.
    Exit(i32),
    /// Print `out` (if there is one) to the command's standard output, then
    /// `err` (if there is one) to its standard error. An empty text prints
    /// nothing but still opens the stream's redirection file.
    Print { out: Option<String>, err: Option<String> },
    /// Print this error message into the command's standard output
    /// redirection if it has one, to the terminal's standard error otherwise.
    ReportInvalid(String),
    /// Look for an executable file of this name on the search path and hand
    /// the result to [`executable_lookup_action`].
    LookupExecutable(String),
    /// Run this program with these arguments.
    Spawn { name: String, args: Vec<String> },
    /// Print the working directory.
    PrintWorkingDir,
    /// Change the working directory to this path, after [`crate::common::home_path_expand`];
    /// on failure print [`cd_error_message`] to standard error.
    ChangeDir(String),
    /// Print the status of every background job.
    ReportJobs,
    /// Print [`history_listing`] of the history for this count, then nothing to standard error.
    ShowHistory(usize),
    /// Add the lines of this file to the history, then print nothing to either stream.
    AppendHistory(String),
    /// Write the history to this file (appending the lines added since the
    /// last append if the flag is set), then print nothing to either stream.
    SaveHistory(String, bool),
}

/// The model of an [`Action`].
pub enum ActionView {
    Nothing,
    Exit(i32),
    Print { out: Option<Seq<char>>, err: Option<Seq<char>> },
    ReportInvalid(Seq<char>),
    LookupExecutable(Seq<char>),
    Spawn { name: Seq<char>, args: Seq<Seq<char>> },
    PrintWorkingDir,
    ChangeDir(Seq<char>),
    ReportJobs,
    ShowHistory(usize),
    AppendHistory(Seq<char>),
    SaveHistory(Seq<char>, bool),
}

/// The model of an optional text.
pub open spec fn text_view(t: Option<String>) -> Option<Seq<char>> {
    match t {
        Some(s) => Some(s@),
        None => None,
    }
}

impl View for Action {
    type V = ActionView;

    open spec fn view(&self) -> ActionView {
        match self {
            Action::Nothing => ActionView::Nothing,
            Action::Exit(c) => ActionView::Exit(*c),
            Action::Print { out, err } => ActionView::Print {
                out: text_view(*out),
                err: text_view(*err),
            },
            Action::ReportInvalid(m) => ActionView::ReportInvalid(m@),
            Action::LookupExecutable(n) => ActionView::LookupExecutable(n@),
            Action::Spawn { name, args } => ActionView::Spawn {
                name: name@,
                args: args.deep_view(),
            },
            Action::PrintWorkingDir => ActionView::PrintWorkingDir,
            Action::ChangeDir(p) => ActionView::ChangeDir(p@),
            Action::ReportJobs => ActionView::ReportJobs,
            Action::ShowHistory(n) => ActionView::ShowHistory(*n),
            Action::AppendHistory(p) => ActionView::AppendHistory(p@),
            Action::SaveHistory(p, a) => ActionView::SaveHistory(p@, *a),
        }
    }
}

/// `<what> is a shell builtin`
pub open spec fn builtin_message(what: Seq<char>) -> Seq<char> {
    what + " is a shell builtin"@
}

/// `<what> is <path>`
pub open spec fn found_message(what: Seq<char>, path: Seq<char>) -> Seq<char> {
    what + " is "@ + path
}

/// `<what>: not found`
pub open spec fn not_found_message(what: Seq<char>) -> Seq<char> {
    what + ": not found"@
}

/// `complete -C '<script>' <command>`
pub open spec fn completion_spec_message(script: Seq<char>, command: Seq<char>) -> Seq<char> {
    "complete -C '"@ + script + "' "@ + command
}

/// `complete: <command>: no completion specification`
pub open spec fn no_completion_message(command: Seq<char>) -> Seq<char> {
    "complete: "@ + command + ": no completion specification"@
}

/// `<what>: command not found`
pub open spec fn command_not_found(what: Seq<char>) -> Seq<char> {
    what + ": command not found"@
}

/// `cd: <path>: No such file or directory`
pub open spec fn cd_error(path: Seq<char>) -> Seq<char> {
    "cd: "@ + path + ": No such file or directory"@
}

/// `<command>: <file>: No such file or directory`
pub open spec fn missing_redirect(command: Seq<char>, file: Seq<char>) -> Seq<char> {
    command + ": "@ + file + ": No such file or directory"@
}

/// What the shell does for `cmd`, given the completion scripts `specs` and the
/// line typed, `input`: the scripts after it, and the action.
pub open spec fn plan(specs: Map<Seq<char>, Seq<char>>, cmd: CommandView, input: Seq<char>) -> (
    Map<Seq<char>, Seq<char>>,
    ActionView,
) {
    match cmd {
        CommandView::Exit(code) => (specs, ActionView::Exit(code)),
        CommandView::Echo(parts) => (
            specs,
            ActionView::Print { out: Some(join_with(parts, " "@)), err: Some(Seq::empty()) },
        ),
        CommandView::Type(what) => (
            specs,
            if shell_builtin_commands().contains(what) {
                ActionView::Print { out: Some(builtin_message(what)), err: None }
            } else {
                ActionView::LookupExecutable(what)
            },
        ),
        CommandView::Unknown(name, args) => (specs, ActionView::Spawn { name, args }),
        CommandView::Pwd => (specs, ActionView::PrintWorkingDir),
        CommandView::Cd(path) => (specs, ActionView::ChangeDir(path)),
        CommandView::Jobs => (specs, ActionView::ReportJobs),
        CommandView::History(n) => (specs, ActionView::ShowHistory(n)),
        CommandView::HistoryAppend(path) => (specs, ActionView::AppendHistory(path)),
        CommandView::HistorySave(path, append) => (specs, ActionView::SaveHistory(path, append)),
        CommandView::CompleteGet(command) => (
            specs,
            if specs.contains_key(command) {
                ActionView::Print {
                    out: Some(completion_spec_message(specs[command], command)),
                    err: None,
                }
            } else {
                ActionView::Print { out: None, err: Some(no_completion_message(command)) }
            },
        ),
        CommandView::CompleteSet { script_path, command } => (
            specs.insert(command, script_path),
            ActionView::Nothing,
        ),
        CommandView::CompleteRemove(command) => (specs.remove(command), ActionView::Nothing),
        CommandView::Declare(_, _) => (specs, ActionView::Nothing),
        CommandView::DeclarePrint(_) => (specs, ActionView::Nothing),
        CommandView::Empty => (specs, ActionView::Nothing),
        CommandView::Invalid => (specs, ActionView::ReportInvalid(command_not_found(trim_of(input)))),
    }
}

/// `what` followed by `tail`.
fn concat(what: &str, tail: &str) -> (r: String)
    ensures
        r@ == what@ + tail@,
{
    let mut r = what.to_owned();
    r.append(tail);
    r
}

/// The message for a redirection whose file cannot be opened.
pub fn missing_redirect_message(command: &str, file: &str) -> (r: String)
    ensures
        r@ == missing_redirect(command@, file@),
{
    let mut r = concat(command, ": ");
    r.append(file);
    r.append(": No such file or directory");
    r
}

/// The message for a program that cannot be started.
pub fn command_not_found_message(name: &str) -> (r: String)
    ensures
        r@ == command_not_found(name@),
{
    concat(name, ": command not found")
}

/// The message for a directory that cannot be entered.
pub fn cd_error_message(path: &str) -> (r: String)
    ensures
        r@ == cd_error(path@),
{
    let mut r = concat("cd: ", path);
    r.append(": No such file or directory");
    r
}

/// What to print once the search for the executable `what` has found `path`,
/// or nothing.
pub fn executable_lookup_action(what: &str, path: Option<String>) -> (r: Action)
    ensures
        r@ == match path {
            Some(p) => ActionView::Print { out: Some(found_message(what@, p@)), err: Some(Seq::empty()) },
            None => ActionView::Print { out: None, err: Some(not_found_message(what@)) },
        },
{
    match path {
        Some(p) => {
            let mut out = concat(what, " is ");
            out.append(p.as_str());
            Action::Print { out: Some(out), err: Some(String::new()) }
        },
        None => Action::Print { out: None, err: Some(concat(what, ": not found")) },
    }
}

/// The state of the shell that outlives a command: the completion scripts.
pub struct ShellContext {
    completions: CompletionSpecs,
}

impl ShellContext {
    /// The completion scripts are well formed.
    pub closed spec fn wf(&self) -> bool {
        self.completions.wf()
    }

    /// The completion scripts, as a map from command to script.
    pub closed spec fn specs(&self) -> Map<Seq<char>, Seq<char>> {
        self.completions@
    }

    /// A shell with these completion scripts.
    pub fn new(completions: CompletionSpecs) -> (r: Self)
        requires
            completions.wf(),
        ensures
            r.wf(),
            r.specs() == completions@,
    {
        ShellContext { completions }
    }

    /// The completion scripts.
    pub fn completions(&self) -> (r: &CompletionSpecs)
        requires
            self.wf(),
        ensures
            r.wf(),
            r@ == self.specs(),
    {
        &self.completions
    }

    /// Decides what to do for `cmd`, typed as `original_input`, as [`plan`]
    /// says, and keeps the completion scripts that it sets.
    pub fn execute_command(&mut self, cmd: Command, original_input: &str) -> (r: Action)
        requires
            old(self).wf(),
        ensures
            final(self).wf(),
            (final(self).specs(), r@) == plan(old(self).specs(), cmd@, original_input@),
    {
        match cmd {
            Command::Exit(code) => Action::Exit(code),
            Command::Echo(parts) => Action::Print {
                out: Some(join(&parts, " ")),
                err: Some(String::new()),
            },
            Command::Type(what) => {
                if is_shell_builtin(what.as_str()) {
                    Action::Print { out: Some(concat(what.as_str(), " is a shell builtin")), err: None }
                } else {
                    Action::LookupExecutable(what)
                }
            },
            Command::Unknown(name, args) => Action::Spawn { name, args },
            Command::Pwd => Action::PrintWorkingDir,
            Command::Cd(path) => Action::ChangeDir(path),
            Command::Jobs => Action::ReportJobs,
            Command::History(n) => Action::ShowHistory(n),
            Command::HistoryAppend(path) => Action::AppendHistory(path),
            Command::HistorySave(path, append) => Action::SaveHistory(path, append),
            Command::CompleteGet(command) => match self.completions.get(command.as_str()) {
                Some(script_path) => {
                    let mut out = concat("complete -C '", script_path.as_str());
                    out.append("' ");
                    out.append(command.as_str());
                    Action::Print { out: Some(out), err: None }
                },
                None => {
                    let mut err = concat("complete: ", command.as_str());
                    err.append(": no completion specification");
                    Action::Print { out: None, err: Some(err) }
                },
            },
            Command::CompleteSet { script_path, command } => {
                self.completions.insert(command, script_path);
                Action::Nothing
            },
            Command::CompleteRemove(command) => {
                self.completions.remove(command.as_str());
                Action::Nothing
            },
            Command::Declare(_, _) => Action::Nothing,
            Command::DeclarePrint(_) => Action::Nothing,
            Command::Empty => Action::Nothing,
            Command::Invalid => {
                let t = trim(original_input);
                Action::ReportInvalid(concat(t.as_str(), ": command not found"))
            },
        }
    }
}

/// The history line of entry `k` (counted from 0): a tab, its number counted
/// from 1, two spaces, the entry and a newline.
pub open spec fn history_line(entries: Seq<Seq<char>>, k: int) -> Seq<char> {
    "\t"@ + decimal((k + 1) as nat) + "  "@ + entries[k] + "\n"@
}

/// The history lines of the entries from `start` to before `end`.
pub open spec fn history_lines(entries: Seq<Seq<char>>, start: int, end: int) -> Seq<char>
    decreases end - start,
{
    if end <= start {
        Seq::empty()
    } else {
        history_lines(entries, start, end - 1) + history_line(entries, end - 1)
    }
}

/// The first of the last `n` entries (all of them if there are no more than `n`).
pub open spec fn history_start(len: nat, n: usize) -> int {
    if n >= len {
        0
    } else {
        len - n
    }
}

/// What `history <n>` prints: the last `n` entries, numbered, without the
/// whitespace at the end.
pub open spec fn history_listing(entries: Seq<Seq<char>>, n: usize) -> Seq<char> {
    trim_end_of(history_lines(entries, history_start(entries.len(), n), entries.len() as int))
}

/// The text that `history <n>` prints for these entries, as [`history_listing`] says.
pub fn history_text(entries: &Vec<String>, n: usize) -> (r: String)
    ensures
        r@ == history_listing(entries.deep_view(), n),
{
    let ghost e = entries.deep_view();
    let len = entries.len();
    let start_from = if n >= len {
        0
    } else {
        len - n
    };
    let mut s = String::new();
    let mut k = start_from;
    while k < len
        invariant
            start_from <= k <= len,
            len == entries.len(),
            e == entries.deep_view(),
            start_from == history_start(e.len(), n),
            s@ == history_lines(e, start_from as int, k as int),
        decreases len - k,
    {
        s.append("\t");
        let num = decimal_string(k + 1);
        s.append(num.as_str());
        s.append("  ");
        s.append(entries[k].as_str());
        s.append("\n");
        assert(s@ == history_lines(e, start_from as int, k as int) + history_line(e, k as int));
        k = k + 1;
    }
    trim_end(s.as_str())
}

} // verus!

verus! {

/// `history 0` prints nothing; `history 1` prints the newest entry alone,
/// numbered by the count of entries; a count of at least the number of
/// entries prints them all, as `history` without a count does.
pub proof fn law_history_counts(entries: Seq<Seq<char>>, newest: Seq<char>, n: usize)
    ensures
        history_listing(entries, 0) == Seq::<char>::empty(),
        history_listing(entries.push(newest), 1) == trim_end_of(
            "\t"@ + decimal((entries.len() + 1) as nat) + "  "@ + newest + "\n"@,
        ),
        n >= entries.len() ==> history_listing(entries, n) == history_listing(entries, usize::MAX),
{
    let all = entries.push(newest);
    let len = all.len() as int;
    assert(history_start(all.len(), 1) == len - 1);
    assert(history_lines(all, len - 1, len - 1) == Seq::<char>::empty());
    assert(all[len - 1] == newest);
    assert(Seq::<char>::empty() + history_line(all, len - 1) == history_line(all, len - 1));
    assert(trim_end_of(Seq::<char>::empty()) == Seq::<char>::empty());
}

/// After `complete -C <script> <command>`, `complete -p <command>` prints
/// that script for that command.
pub proof fn law_completion_read_after_write(
    specs: Map<Seq<char>, Seq<char>>,
    script: Seq<char>,
    command: Seq<char>,
    set_input: Seq<char>,
    get_input: Seq<char>,
)
    ensures
        ({
            let after = plan(specs, CommandView::CompleteSet { script_path: script, command }, set_input).0;
            plan(after, CommandView::CompleteGet(command), get_input) == (
                after,
                ActionView::Print { out: Some(completion_spec_message(script, command)), err: None },
            )
        }),
{
}

/// Setting the script of one command leaves what `complete -p` prints for
/// any other command as it was.
pub proof fn law_completion_other_commands(
    specs: Map<Seq<char>, Seq<char>>,
    script: Seq<char>,
    command: Seq<char>,
    other: Seq<char>,
    set_input: Seq<char>,
    get_input: Seq<char>,
)
    requires
        other != command,
    ensures
        ({
            let after = plan(specs, CommandView::CompleteSet { script_path: script, command }, set_input).0;
            plan(after, CommandView::CompleteGet(other), get_input).1 == plan(
                specs,
                CommandView::CompleteGet(other),
                get_input,
            ).1
        }),
{
}

/// After `complete -r <command>`, `complete -p <command>` reports that there
/// is no script.
pub proof fn law_completion_removed(
    specs: Map<Seq<char>, Seq<char>>,
    command: Seq<char>,
    remove_input: Seq<char>,
    get_input: Seq<char>,
)
    ensures
        ({
            let after = plan(specs, CommandView::CompleteRemove(command), remove_input).0;
            plan(after, CommandView::CompleteGet(command), get_input).1 == ActionView::Print {
                out: None,
                err: Some(no_completion_message(command)),
            }
        }),
{
}

/// Only the completion commands change the completion scripts.
pub proof fn law_only_complete_changes_specs(
    specs: Map<Seq<char>, Seq<char>>,
    cmd: CommandView,
    input: Seq<char>,
)
    requires
        !(cmd is CompleteSet),
        !(cmd is CompleteRemove),
    ensures
        plan(specs, cmd, input).0 == specs,
{
}

} // verus!

verus! {

/// Which history lines a save writes and where the next append starts: all
/// of them when the file is overwritten; when it is appended to, those from
/// `last_save_index` on, and the next append starts after the last line.
pub fn history_save_range(history_len: usize, should_append: bool, last_save_index: usize) -> (r: (
    usize,
    usize,
))
    ensures
        r == (if should_append {
            (last_save_index, history_len)
        } else {
            (0usize, last_save_index)
        }),
{
    if should_append {
        (last_save_index, history_len)
    } else {
        (0, last_save_index)
    }
}

} // verus!

verus! {

/// Each command's action carries the command's own values: the program and
/// its arguments to run, the directory to change to, the history file to
/// read, the count of history lines, the exit code; `type` answers a builtin
/// itself and looks anything else up; `complete -p` prints the script set for
/// the command or says that there is none; an invalid command is reported
/// by the trimmed line that was typed.
pub proof fn law_plan_actions(
    specs: Map<Seq<char>, Seq<char>>,
    input: Seq<char>,
    name: Seq<char>,
    args: Seq<Seq<char>>,
    path: Seq<char>,
    n: usize,
    code: i32,
)
    ensures
        plan(specs, CommandView::Unknown(name, args), input).1 == (ActionView::Spawn { name, args }),
        plan(specs, CommandView::Cd(path), input).1 == ActionView::ChangeDir(path),
        plan(specs, CommandView::HistoryAppend(path), input).1 == ActionView::AppendHistory(path),
        plan(specs, CommandView::History(n), input).1 == ActionView::ShowHistory(n),
        plan(specs, CommandView::Exit(code), input).1 == ActionView::Exit(code),
        plan(specs, CommandView::Type(name), input).1 == (if shell_builtin_commands().contains(name) {
            ActionView::Print { out: Some(name + " is a shell builtin"@), err: None }
        } else {
            ActionView::LookupExecutable(name)
        }),
        plan(specs, CommandView::CompleteGet(name), input).1 == (if specs.contains_key(name) {
            ActionView::Print { out: Some("complete -C '"@ + specs[name] + "' "@ + name), err: None }
        } else {
            ActionView::Print {
                out: None,
                err: Some("complete: "@ + name + ": no completion specification"@),
            }
        }),
        plan(specs, CommandView::Invalid, input).1 == ActionView::ReportInvalid(
            trim_of(input) + ": command not found"@,
        ),
{
}

/// A history save is carried out on the command's own file with the
/// command's own choice between overwriting and appending, and changes no
/// completion script.
pub proof fn law_history_save_keeps_mode(
    specs: Map<Seq<char>, Seq<char>>,
    path: Seq<char>,
    append: bool,
    input: Seq<char>,
)
    ensures
        plan(specs, CommandView::HistorySave(path, append), input) == (
            specs,
            ActionView::SaveHistory(path, append),
        ),
{
}

/// `complete -r <command>` undoes `complete -C <script> <command>`: the
/// scripts are then as they were with the command's own script removed.
pub proof fn law_remove_undoes_set(
    specs: Map<Seq<char>, Seq<char>>,
    script: Seq<char>,
    command: Seq<char>,
    set_input: Seq<char>,
    remove_input: Seq<char>,
)
    ensures
        ({
            let after = plan(specs, CommandView::CompleteSet { script_path: script, command }, set_input).0;
            plan(after, CommandView::CompleteRemove(command), remove_input).0 == specs.remove(command)
        }),
{
    assert(specs.insert(command, script).remove(command) =~= specs.remove(command));
}

} // verus!

verus! {

/// Where a command's output goes.
#[derive(Clone, Copy, Debug, PartialEq, Eq, Structural)]
pub enum OutputTarget {
    /// Into the pipe to the next command.
    Pipe,
    /// Into the file of the stream's redirection.
    RedirectFile,
    /// Onto the terminal.
    Terminal,
}

/// Where output goes and whether it is written (followed by a newline):
/// a pipe comes first, then a redirection, then the terminal; empty output is
/// written only into a pipe (a redirection's file is still opened).
pub fn output_plan(text: &str, has_pipe: bool, has_redirect: bool) -> (r: (OutputTarget, bool))
    ensures
        r.0 == (if has_pipe {
            OutputTarget::Pipe
        } else if has_redirect {
            OutputTarget::RedirectFile
        } else {
            OutputTarget::Terminal
        }),
        r.1 == (has_pipe || text@.len() > 0),
{
    let empty = text.is_empty();
    if has_pipe {
        (OutputTarget::Pipe, true)
    } else if has_redirect {
        (OutputTarget::RedirectFile, !empty)
    } else {
        (OutputTarget::Terminal, !empty)
    }
}

} // verus!

verus! {

/// Whether a command may run as far as one of its redirections goes: with no
/// redirection, or one whose file could be opened (`opened`), it may (`None`);
/// otherwise it does not run and this message is printed to standard error.
pub fn redirect_failure(command: &str, redirect: &Option<crate::redirect::Redirect>, opened: bool) -> (r:
    Option<String>)
    ensures
        match redirect {
            Some(x) => if opened {
                r is None
            } else {
                r is Some && r->0@ == missing_redirect(command@, x.filename@)
            },
            None => r is None,
        },
{
    match redirect {
        Some(x) => if opened {
            None
        } else {
            Some(missing_redirect_message(command, x.filename.as_str()))
        },
        None => None,
    }
}

} // verus!

verus! {

/// What the shell does for a command that has redirections, given whether
/// each redirection's file could be opened: the file of standard output is
/// tried first, that of standard error only after it. A redirection whose
/// file cannot be opened stops the command: its message is the error, nothing
/// is done and the completion scripts stay as they were. Otherwise the
/// command goes on as [`plan`] says.
pub open spec fn plan_with_redirects(
    specs: Map<Seq<char>, Seq<char>>,
    cmd: CommandView,
    input: Seq<char>,
    stdout_redirect: Option<crate::redirect::RedirectView>,
    stdout_opened: bool,
    stderr_redirect: Option<crate::redirect::RedirectView>,
    stderr_opened: bool,
) -> (Map<Seq<char>, Seq<char>>, Result<ActionView, Seq<char>>) {
    if stdout_redirect is Some && !stdout_opened {
        (specs, Err(missing_redirect(crate::command::command_name(cmd), stdout_redirect->0.filename)))
    } else if stderr_redirect is Some && !stderr_opened {
        (specs, Err(missing_redirect(crate::command::command_name(cmd), stderr_redirect->0.filename)))
    } else {
        let (s, a) = plan(specs, cmd, input);
        (s, Ok(a))
    }
}

/// The model of a planned action or a refusal message.
pub open spec fn outcome_view(r: Result<Action, String>) -> Result<ActionView, Seq<char>> {
    match r {
        Ok(a) => Ok(a@),
        Err(m) => Err(m@),
    }
}

impl ShellContext {
    /// Decides what to do for `cmd` with its redirections, as
    /// [`plan_with_redirects`] says; `stdout_opened` and `stderr_opened` tell
    /// whether the files of the redirections could be opened (the second
    /// counts only when the first is `true` or there is no standard output
    /// redirection). `Err` holds the message to print to standard error.
    pub fn execute_with_redirects(
        &mut self,
        cmd: Command,
        original_input: &str,
        stdout_redirect: &Option<crate::redirect::Redirect>,
        stdout_opened: bool,
        stderr_redirect: &Option<crate::redirect::Redirect>,
        stderr_opened: bool,
    ) -> (r: Result<Action, String>)
        requires
            old(self).wf(),
            !(cmd@ is Invalid),
        ensures
            final(self).wf(),
            (final(self).specs(), outcome_view(r)) == plan_with_redirects(
                old(self).specs(),
                cmd@,
                original_input@,
                crate::redirect::redirect_view(*stdout_redirect),
                stdout_opened,
                crate::redirect::redirect_view(*stderr_redirect),
                stderr_opened,
            ),
    {
        let name = cmd.name();
        if let Some(message) = redirect_failure(name.as_str(), stdout_redirect, stdout_opened) {
            return Err(message);
        }
        if let Some(message) = redirect_failure(name.as_str(), stderr_redirect, stderr_opened) {
            return Err(message);
        }
        Ok(self.execute_command(cmd, original_input))
    }
}

/// A command whose redirection file cannot be opened is not carried out and
/// changes nothing.
pub proof fn law_failed_redirect_stops_command(
    specs: Map<Seq<char>, Seq<char>>,
    cmd: CommandView,
    input: Seq<char>,
    stdout_redirect: Option<crate::redirect::RedirectView>,
    stdout_opened: bool,
    stderr_redirect: Option<crate::redirect::RedirectView>,
    stderr_opened: bool,
)
    requires
        (stdout_redirect is Some && !stdout_opened) || (stderr_redirect is Some && !stderr_opened),
    ensures
        plan_with_redirects(specs, cmd, input, stdout_redirect, stdout_opened, stderr_redirect, stderr_opened).0
            == specs,
        plan_with_redirects(specs, cmd, input, stdout_redirect, stdout_opened, stderr_redirect, stderr_opened).1 is Err,
{
}

/// A command whose redirection files could all be opened goes on exactly as
/// without them; when a file cannot be opened, the refusal names the command
/// and that file, the file of standard output being tried first.
pub proof fn law_redirects_then_plan(
    specs: Map<Seq<char>, Seq<char>>,
    cmd: CommandView,
    input: Seq<char>,
    stdout_redirect: Option<crate::redirect::RedirectView>,
    stdout_opened: bool,
    stderr_redirect: Option<crate::redirect::RedirectView>,
    stderr_opened: bool,
)
    ensures
        (stdout_redirect is None || stdout_opened) && (stderr_redirect is None || stderr_opened)
            ==> plan_with_redirects(specs, cmd, input, stdout_redirect, stdout_opened, stderr_redirect, stderr_opened)
            == (plan(specs, cmd, input).0, Ok::<ActionView, Seq<char>>(plan(specs, cmd, input).1)),
        stdout_redirect is Some && !stdout_opened ==> plan_with_redirects(
            specs,
            cmd,
            input,
            stdout_redirect,
            stdout_opened,
            stderr_redirect,
            stderr_opened,
        ).1 == Err::<ActionView, Seq<char>>(
            crate::command::command_name(cmd) + ": "@ + stdout_redirect->0.filename
                + ": No such file or directory"@,
        ),
        (stdout_redirect is None || stdout_opened) && stderr_redirect is Some && !stderr_opened
            ==> plan_with_redirects(specs, cmd, input, stdout_redirect, stdout_opened, stderr_redirect, stderr_opened).1
            == Err::<ActionView, Seq<char>>(
            crate::command::command_name(cmd) + ": "@ + stderr_redirect->0.filename
                + ": No such file or directory"@,
        ),
{
}

} // verus!
