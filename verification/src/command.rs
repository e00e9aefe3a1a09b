//! The commands that the shell knows.

use vstd::prelude::*;

verus! {

/// A command line, identified.
#[derive(Clone, Debug)]
pub enum Command {
    Exit(i32),
    Echo(Vec<String>),
    Type(String),
    Unknown(String, Vec<String>),
    Cd(String),
    Pwd,
    Jobs,
    History(usize),
    HistoryAppend(String),
    CompleteGet(String),
    CompleteSet { script_path: String, command: String },
    CompleteRemove(String),
    /// The file and whether to append to it.
    HistorySave(String, bool),
    /// A variable's name and value.
    Declare(String, String),
    DeclarePrint(String),
    Empty,
    Invalid,
}

/// The model of a [`Command`].
pub enum CommandView {
    Exit(i32),
    Echo(Seq<Seq<char>>),
    Type(Seq<char>),
    Unknown(Seq<char>, Seq<Seq<char>>),
    Cd(Seq<char>),
    Pwd,
    Jobs,
    History(usize),
    HistoryAppend(Seq<char>),
    CompleteGet(Seq<char>),
    CompleteSet { script_path: Seq<char>, command: Seq<char> },
    CompleteRemove(Seq<char>),
    HistorySave(Seq<char>, bool),
    Declare(Seq<char>, Seq<char>),
    DeclarePrint(Seq<char>),
    Empty,
    Invalid,
}

impl View for Command {
    type V = CommandView;

    open spec fn view(&self) -> CommandView {
        match self {
            Command::Exit(c) => CommandView::Exit(*c),
            Command::Echo(a) => CommandView::Echo(a.deep_view()),
            Command::Type(w) => CommandView::Type(w@),
            Command::Unknown(n, a) => CommandView::Unknown(n@, a.deep_view()),
            Command::Cd(p) => CommandView::Cd(p@),
            Command::Pwd => CommandView::Pwd,
            Command::Jobs => CommandView::Jobs,
            Command::History(n) => CommandView::History(*n),
            Command::HistoryAppend(p) => CommandView::HistoryAppend(p@),
            Command::CompleteGet(c) => CommandView::CompleteGet(c@),
            Command::CompleteSet { script_path, command } => CommandView::CompleteSet {
                script_path: script_path@,
                command: command@,
            },
            Command::CompleteRemove(c) => CommandView::CompleteRemove(c@),
            Command::HistorySave(p, a) => CommandView::HistorySave(p@, *a),
            Command::Declare(n, v) => CommandView::Declare(n@, v@),
            Command::DeclarePrint(n) => CommandView::DeclarePrint(n@),
            Command::Empty => CommandView::Empty,
            Command::Invalid => CommandView::Invalid,
        }
    }
}

/// The name under which a command is known; an unknown command is known by
/// its own name. An invalid command has none.
pub open spec fn command_name(c: CommandView) -> Seq<char>
    recommends
        !(c is Invalid),
{
    match c {
        CommandView::Exit(_) => "exit"@,
        CommandView::Echo(_) => "echo"@,
        CommandView::Type(_) => "type"@,
        CommandView::History(_) => "history"@,
        CommandView::HistoryAppend(_) => "history"@,
        CommandView::HistorySave(_, _) => "history"@,
        CommandView::Unknown(name, _) => name,
        CommandView::Pwd => "pwd"@,
        CommandView::Cd(_) => "cd"@,
        CommandView::Empty => Seq::empty(),
        CommandView::Jobs => "jobs"@,
        CommandView::CompleteGet(_) => "complete"@,
        CommandView::CompleteSet { .. } => "complete"@,
        CommandView::CompleteRemove(_) => "complete"@,
        CommandView::Declare(_, _) => "declare"@,
        CommandView::DeclarePrint(_) => "declare"@,
        CommandView::Invalid => Seq::empty(),
    }
}

impl Command {
    /// The name under which this command is known, as [`command_name`] says.
    /// An invalid command has no name to give.
    pub fn name(&self) -> (r: String)
        requires
            !(self@ is Invalid),
        ensures
            r@ == command_name(self@),
    {
        match self {
            Command::Exit(_) => "exit".to_owned(),
            Command::Echo(_) => "echo".to_owned(),
            Command::Type(_) => "type".to_owned(),
            Command::History(_) => "history".to_owned(),
            Command::HistoryAppend(_) => "history".to_owned(),
            Command::HistorySave(_, _) => "history".to_owned(),
            Command::Unknown(name, _) => name.clone(),
            Command::Pwd => "pwd".to_owned(),
            Command::Cd(_) => "cd".to_owned(),
            Command::Empty => String::new(),
            Command::Jobs => "jobs".to_owned(),
            Command::CompleteGet(_) => "complete".to_owned(),
            Command::CompleteSet { .. } => "complete".to_owned(),
            Command::CompleteRemove(_) => "complete".to_owned(),
            Command::Declare(_, _) => "declare".to_owned(),
            Command::DeclarePrint(_) => "declare".to_owned(),
            Command::Invalid => String::new(),
        }
    }
}

} // verus!
