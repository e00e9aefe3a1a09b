//! Turning a line of input into commands, and the completion helpers on lines.

use vstd::prelude::*;

use crate::arg_parser::{ArgParser, UnidentifiedCommand, parse_line};
use crate::command::{Command, CommandView};
use crate::number::{parse_i32, parse_i32_spec, parse_usize, parse_usize_spec};
use crate::redirect::{Redirect, RedirectView, redirect_view};
use vstd::string::StringSliceAdditionalSpecFns;
use vstd::utf8::{
    encode_scalar, encode_utf8, encode_utf8_decode_utf8, encode_utf8_valid_utf8,
    is_char_boundary, is_char_boundary_iff_not_is_continuation_byte,
    is_char_boundary_start_end_of_seq,
};

use crate::text::{chars_of, contains_char, has_prefix, split_char, split_on, starts_with, string_from_chars, text_eq};

verus! {

/// The names of the commands that the shell runs itself.
pub open spec fn shell_builtin_commands() -> Seq<Seq<char>> {
    seq![
        "echo"@,
        "type"@,
        "exit"@,
        "pwd"@,
        "cd"@,
        "history"@,
        "jobs"@,
        "complete"@,
        "declare"@,
    ]
}

/// The names of the commands that the shell runs itself, in the order of
/// [`shell_builtin_commands`].
pub fn shell_builtin_names() -> (v: Vec<String>)
    ensures
        v.deep_view() == shell_builtin_commands(),
{
    let v = vec![
        "echo".to_owned(),
        "type".to_owned(),
        "exit".to_owned(),
        "pwd".to_owned(),
        "cd".to_owned(),
        "history".to_owned(),
        "jobs".to_owned(),
        "complete".to_owned(),
        "declare".to_owned(),
    ];
    assert(v.deep_view() == shell_builtin_commands());
    v
}

/// Whether `name` is one of [`shell_builtin_commands`].
pub fn is_shell_builtin(name: &str) -> (r: bool)
    ensures
        r == shell_builtin_commands().contains(name@),
{
    let names = shell_builtin_names();
    let mut i: usize = 0;
    while i < names.len()
        invariant
            i <= names.len(),
            names.deep_view() == shell_builtin_commands(),
            forall|k: int| 0 <= k < i ==> shell_builtin_commands()[k] != name@,
        decreases names.len() - i,
    {
        if text_eq(names[i].as_str(), name) {
            assert(shell_builtin_commands()[i as int] == name@);
            return true;
        }
        i = i + 1;
    }
    false
}

/// A command with what came with it on its line.
#[derive(Clone, Debug)]
pub struct CommandWithContext {
    /// The text that the command came from.
    pub original: String,
    pub cmd: Command,
    /// Whether the command runs in the background.
    pub is_job: bool,
    pub stdout_redirect: Option<Redirect>,
    pub stderr_redirect: Option<Redirect>,
}

/// The model of a [`CommandWithContext`].
pub struct ContextView {
    pub original: Seq<char>,
    pub cmd: CommandView,
    pub is_job: bool,
    pub stdout_redirect: Option<RedirectView>,
    pub stderr_redirect: Option<RedirectView>,
}

impl View for CommandWithContext {
    type V = ContextView;

    open spec fn view(&self) -> ContextView {
        ContextView {
            original: self.original@,
            cmd: self.cmd@,
            is_job: self.is_job,
            stdout_redirect: redirect_view(self.stdout_redirect),
            stderr_redirect: redirect_view(self.stderr_redirect),
        }
    }
}

/// The commands of one line, each to feed the next.
#[derive(Debug)]
pub struct PipedCommands(pub Vec<CommandWithContext>);

impl View for PipedCommands {
    type V = Seq<ContextView>;

    open spec fn view(&self) -> Seq<ContextView> {
        self.0@.map_values(|c: CommandWithContext| c@)
    }
}

/// The one command that a refused line gives: invalid, with nothing around it.
pub open spec fn invalid_context() -> ContextView {
    ContextView {
        original: Seq::empty(),
        cmd: CommandView::Invalid,
        is_job: false,
        stdout_redirect: None,
        stderr_redirect: None,
    }
}

impl PipedCommands {
    /// A line refused as a whole: one invalid command.
    pub fn new_invalid() -> (r: Self)
        ensures
            r@ == seq![invalid_context()],
    {
        let r = PipedCommands(
            vec![
                CommandWithContext {
                    original: String::new(),
                    cmd: Command::Invalid,
                    is_job: false,
                    stdout_redirect: None,
                    stderr_redirect: None,
                },
            ],
        );
        assert(r@ == seq![invalid_context()]);
        r
    }
}

/// The command that a name and its arguments make. `None` means that the line
/// is refused as a whole (a bad `exit` or `history`); a command that is only
/// used wrongly is [`CommandView::Invalid`].
pub open spec fn identify(name: Seq<char>, args: Seq<Seq<char>>) -> Option<CommandView> {
    if name == "exit"@ {
        if args.len() == 1 {
            match parse_i32_spec(args[0]) {
                Some(v) => Some(CommandView::Exit(v)),
                None => None,
            }
        } else if args.len() > 1 {
            None
        } else {
            Some(CommandView::Exit(0))
        }
    } else if name == "echo"@ {
        Some(CommandView::Echo(args))
    } else if name == "type"@ {
        if args.len() != 1 {
            Some(CommandView::Invalid)
        } else {
            Some(CommandView::Type(args[0]))
        }
    } else if name == "pwd"@ {
        Some(CommandView::Pwd)
    } else if name == "history"@ {
        if args.len() == 0 {
            Some(CommandView::History(usize::MAX))
        } else if args.len() == 1 {
            match parse_usize_spec(args[0]) {
                Some(v) => Some(CommandView::History(v)),
                None => None,
            }
        } else if args.len() == 2 && args[0] == "-r"@ {
            Some(CommandView::HistoryAppend(args[1]))
        } else if args.len() == 2 && args[0] == "-w"@ {
            Some(CommandView::HistorySave(args[1], false))
        } else if args.len() == 2 && args[0] == "-a"@ {
            Some(CommandView::HistorySave(args[1], true))
        } else {
            None
        }
    } else if name == "cd"@ {
        if args.len() != 1 {
            Some(CommandView::Invalid)
        } else {
            Some(CommandView::Cd(args[0]))
        }
    } else if name == "jobs"@ {
        Some(CommandView::Jobs)
    } else if name == "complete"@ {
        if args.len() == 2 && args[0] == "-r"@ {
            Some(CommandView::CompleteRemove(args[1]))
        } else if args.len() == 2 && args[0] == "-p"@ {
            Some(CommandView::CompleteGet(args[1]))
        } else if args.len() == 3 && args[0] == "-C"@ {
            Some(CommandView::CompleteSet { script_path: args[1], command: args[2] })
        } else {
            Some(CommandView::Invalid)
        }
    } else if name == "declare"@ {
        if args.len() == 1 {
            let parts = split_on(args[0], '=');
            if parts.len() == 2 {
                Some(CommandView::Declare(parts[0], parts[1]))
            } else {
                Some(CommandView::Invalid)
            }
        } else if args.len() == 2 && args[0] == "-p"@ {
            Some(CommandView::DeclarePrint(args[1]))
        } else {
            Some(CommandView::Invalid)
        }
    } else if name.len() == 0 {
        Some(CommandView::Empty)
    } else {
        Some(CommandView::Unknown(name, args))
    }
}

/// The commands that a line gives: the line split as [`parse_line`] says and
/// identified as [`identify`] says, with the line as its text; or the one
/// invalid command of a refused line.
pub open spec fn parse_command_spec(raw: Seq<char>) -> Seq<ContextView> {
    let line = parse_line(raw);
    match identify(line.name, line.args) {
        Some(cmd) => seq![
            ContextView {
                original: raw,
                cmd: cmd,
                is_job: false,
                stdout_redirect: line.stdout_redirect,
                stderr_redirect: line.stderr_redirect,
            },
        ],
        None => seq![invalid_context()],
    }
}

/// The command that `raw` names, as [`identify`] says.
fn identify_command(raw_cmd: &UnidentifiedCommand) -> (r: Option<Command>)
    ensures
        match r {
            Some(c) => identify(raw_cmd@.name, raw_cmd@.args) == Some(c@),
            None => identify(raw_cmd@.name, raw_cmd@.args) is None,
        },
{
    let name = raw_cmd.name.as_str();
    let args = &raw_cmd.args;
    let ghost a = args.deep_view();
    if text_eq(name, "exit") {
        if args.len() == 1 {
            match parse_i32(args[0].as_str()) {
                Some(v) => Some(Command::Exit(v)),
                None => None,
            }
        } else if args.len() > 1 {
            None
        } else {
            Some(Command::Exit(0))
        }
    } else if text_eq(name, "echo") {
        Some(Command::Echo(args.clone()))
    } else if text_eq(name, "type") {
        if args.len() != 1 {
            Some(Command::Invalid)
        } else {
            Some(Command::Type(args[0].clone()))
        }
    } else if text_eq(name, "pwd") {
        Some(Command::Pwd)
    } else if text_eq(name, "history") {
        if args.len() == 0 {
            Some(Command::History(usize::MAX))
        } else if args.len() == 1 {
            match parse_usize(args[0].as_str()) {
                Some(v) => Some(Command::History(v)),
                None => None,
            }
        } else if args.len() == 2 && text_eq(args[0].as_str(), "-r") {
            Some(Command::HistoryAppend(args[1].clone()))
        } else if args.len() == 2 && text_eq(args[0].as_str(), "-w") {
            Some(Command::HistorySave(args[1].clone(), false))
        } else if args.len() == 2 && text_eq(args[0].as_str(), "-a") {
            Some(Command::HistorySave(args[1].clone(), true))
        } else {
            None
        }
    } else if text_eq(name, "cd") {
        if args.len() != 1 {
            Some(Command::Invalid)
        } else {
            Some(Command::Cd(args[0].clone()))
        }
    } else if text_eq(name, "jobs") {
        Some(Command::Jobs)
    } else if text_eq(name, "complete") {
        if args.len() == 2 && text_eq(args[0].as_str(), "-r") {
            Some(Command::CompleteRemove(args[1].clone()))
        } else if args.len() == 2 && text_eq(args[0].as_str(), "-p") {
            Some(Command::CompleteGet(args[1].clone()))
        } else if args.len() == 3 && text_eq(args[0].as_str(), "-C") {
            let script_path = args[1].clone();
            let command = args[2].clone();
            Some(Command::CompleteSet { script_path, command })
        } else {
            Some(Command::Invalid)
        }
    } else if text_eq(name, "declare") {
        if args.len() == 1 {
            let parts = split_char(args[0].as_str(), '=');
            if parts.len() == 2 {
                Some(Command::Declare(parts[0].clone(), parts[1].clone()))
            } else {
                Some(Command::Invalid)
            }
        } else if args.len() == 2 && text_eq(args[0].as_str(), "-p") {
            Some(Command::DeclarePrint(args[1].clone()))
        } else {
            Some(Command::Invalid)
        }
    } else if raw_cmd.name.as_str().is_empty() {
        Some(Command::Empty)
    } else {
        Some(Command::Unknown(raw_cmd.name.clone(), args.clone()))
    }
}

/// The commands of a line, as [`parse_command_spec`] says. The line is taken
/// as it is: no variables are substituted in it.
pub fn parse_command(raw: &str) -> (r: PipedCommands)
    requires
        raw@.len() < usize::MAX,
    ensures
        r@ == parse_command_spec(raw@),
{
    let raw_cmd = match ArgParser::new(raw).parse() {
        Some(v) => v,
        None => {
            return PipedCommands::new_invalid();
        },
    };
    match identify_command(&raw_cmd) {
        Some(cmd) => {
            let r = PipedCommands(
                vec![
                    CommandWithContext {
                        original: raw.to_owned(),
                        cmd,
                        is_job: false,
                        stdout_redirect: raw_cmd.stdout_redirect,
                        stderr_redirect: raw_cmd.stderr_redirect,
                    },
                ],
            );
            assert(r@ == parse_command_spec(raw@));
            r
        },
        None => PipedCommands::new_invalid(),
    }
}

} // verus!

verus! {

/// The position of the last `c` in `s`, or -1.
pub open spec fn last_index_of(s: Seq<char>, c: char) -> int
    decreases s.len(),
{
    if s.len() == 0 {
        -1
    } else if s.last() == c {
        s.len() - 1
    } else {
        last_index_of(s.drop_last(), c)
    }
}

/// The last piece of a split is what follows the last separator.
pub proof fn lemma_last_piece(s: Seq<char>, c: char)
    ensures
        -1 <= last_index_of(s, c) < s.len(),
        last_index_of(s, c) >= 0 ==> s[last_index_of(s, c)] == c,
        forall|i: int| last_index_of(s, c) < i < s.len() ==> s[i] != c,
        split_on(s, c).last() == s.skip(last_index_of(s, c) + 1),
        split_on(s, c).len() >= 1,
    decreases s.len(),
{
    crate::text::lemma_split_on_nonempty(s, c);
    if s.len() > 0 {
        let t = s.drop_last();
        lemma_last_piece(t, c);
        if s.last() != c {
            assert(s.skip(last_index_of(s, c) + 1) == t.skip(last_index_of(t, c) + 1).push(
                s.last(),
            ));
            assert forall|i: int| last_index_of(s, c) < i < s.len() implies s[i] != c by {
                if i < s.len() - 1 {
                    assert(s[i] == t[i]);
                }
            }
        } else {
            assert(s.skip(s.len() as int) == Seq::<char>::empty());
        }
    } else {
        assert(s.skip(0) == s);
    }
}

/// The three words that a completion script is given for a line: the
/// command (what comes before the first space), the word being completed
/// (what comes after the last space) and the word before it (empty if
/// there is none).
pub open spec fn completion_args(line: Seq<char>) -> Seq<Seq<char>> {
    let parts = split_on(line, ' ');
    seq![
        parts[0],
        parts.last(),
        if parts.len() >= 2 {
            parts[parts.len() - 2]
        } else {
            Seq::empty()
        },
    ]
}

/// The command, the word being completed and the word before it, as
/// [`completion_args`] says.
pub fn parse_completion_args_from_line(line: &str) -> (r: [String; 3])
    ensures
        r.deep_view() == completion_args(line@),
{
    let parts = split_char(line, ' ');
    proof {
        crate::text::lemma_split_on_nonempty(line@, ' ');
    }
    let command = parts[0].clone();
    let current = parts[parts.len() - 1].clone();
    let prev = if parts.len() >= 2 {
        parts[parts.len() - 2].clone()
    } else {
        String::new()
    };
    let r = [command, current, prev];
    assert(r.deep_view() == completion_args(line@));
    r
}

/// The number of characters after the last space of `line`.
pub open spec fn chars_after_last_space(line: Seq<char>) -> int {
    line.len() - 1 - last_index_of(line, ' ')
}

/// The byte offset at which the line is cut: its length in bytes less the
/// number of characters after its last space. Where those characters are
/// ASCII this is just after the last space; otherwise it lies further on.
pub open spec fn split_offset(line: &str) -> int {
    line.spec_bytes().len() - chars_after_last_space(line@)
}

/// The cut is defined: the line has a space, and both the offset and the
/// byte before it fall on character boundaries (the slicing panics otherwise).
pub open spec fn split_line_defined(line: &str) -> bool {
    &&& line@.contains(' ')
    &&& is_char_boundary(line.spec_bytes(), split_offset(line) - 1)
    &&& is_char_boundary(line.spec_bytes(), split_offset(line))
}

/// Every character after the last space is ASCII.
pub open spec fn ascii_tail(line: Seq<char>) -> bool {
    forall|i: int| last_index_of(line, ' ') < i < line.len() ==> (#[trigger] line[i] as u32) < 0x80
}

/// A UTF-8 encoding is at least as long as the characters it encodes.
pub proof fn lemma_encode_len(s: Seq<char>)
    ensures
        encode_utf8(s).len() >= s.len(),
    decreases s.len(),
{
    if s.len() > 0 {
        lemma_encode_len(s.drop_first());
    }
}

/// The encoding of two texts one after the other is their encodings one after the other.
pub proof fn lemma_encode_concat(a: Seq<char>, b: Seq<char>)
    ensures
        encode_utf8(a + b) == encode_utf8(a) + encode_utf8(b),
    decreases a.len(),
{
    if a.len() == 0 {
        assert(a + b == b);
    } else {
        lemma_encode_concat(a.drop_first(), b);
        assert((a + b).drop_first() == a.drop_first() + b);
        assert((a + b)[0] == a[0]);
    }
}

/// ASCII characters encode to one byte each, below 0x80.
pub proof fn lemma_encode_ascii(s: Seq<char>)
    requires
        forall|i: int| 0 <= i < s.len() ==> (#[trigger] s[i] as u32) < 0x80,
    ensures
        encode_utf8(s).len() == s.len(),
        forall|i: int| 0 <= i < s.len() ==> #[trigger] encode_utf8(s)[i] < 0x80,
    decreases s.len(),
{
    if s.len() > 0 {
        let t = s.drop_first();
        assert forall|i: int| 0 <= i < t.len() implies (#[trigger] t[i] as u32) < 0x80 by {
            assert(t[i] == s[i + 1]);
        }
        lemma_encode_ascii(t);
        let v = s[0] as u32;
        assert(v < 0x80);
        assert(((v & 0x7F) as u8) < 0x80) by (bit_vector)
            requires
                v < 0x80,
        ;
        let e = encode_utf8(s);
        assert(e == encode_scalar(v) + encode_utf8(t));
        assert forall|i: int| 0 <= i < s.len() implies #[trigger] encode_utf8(s)[i] < 0x80 by {
            if i > 0 {
                assert(e[i] == encode_utf8(t)[i - 1]);
            }
        }
    }
}

/// Texts with the same encoding are the same.
pub proof fn lemma_encode_injective(a: Seq<char>, b: Seq<char>)
    requires
        encode_utf8(a) == encode_utf8(b),
    ensures
        a == b,
{
    encode_utf8_decode_utf8(a);
    encode_utf8_decode_utf8(b);
}

/// Where the characters after the last space are ASCII, the cut is defined
/// (when the length fits) and falls just after the last space: the bytes
/// before the space and those after the cut encode the text before the
/// space and the text after it.
pub proof fn lemma_ascii_tail_split(line: &str)
    requires
        line@.contains(' '),
        ascii_tail(line@),
    ensures
        split_line_defined(line),
        line.spec_bytes().subrange(0, split_offset(line) - 1) == encode_utf8(
            line@.take(last_index_of(line@, ' ')),
        ),
        line.spec_bytes().subrange(split_offset(line), line.spec_bytes().len() as int)
            == encode_utf8(line@.skip(last_index_of(line@, ' ') + 1)),
{
    lemma_last_piece(line@, ' ');
    let w = choose|k: int| 0 <= k < line@.len() && line@[k] == ' ';
    let k = last_index_of(line@, ' ');
    let a = line@.take(k);
    let t = line@.skip(k + 1);
    assert(line@ == a + seq![' '] + t);
    assert forall|i: int| 0 <= i < t.len() implies (#[trigger] t[i] as u32) < 0x80 by {
        assert(t[i] == line@[k + 1 + i]);
    }
    lemma_encode_ascii(t);
    let sp = seq![' '];
    assert forall|i: int| 0 <= i < sp.len() implies (#[trigger] sp[i] as u32) < 0x80 by {}
    lemma_encode_ascii(sp);
    lemma_encode_concat(a + sp, t);
    lemma_encode_concat(a, sp);
    let bytes = line.spec_bytes();
    let ea = encode_utf8(a);
    let es = encode_utf8(sp);
    let et = encode_utf8(t);
    assert(bytes == ea + es + et);
    assert(split_offset(line) == ea.len() + 1);
    assert(bytes.subrange(0, split_offset(line) - 1) == ea);
    assert(bytes.subrange(split_offset(line), bytes.len() as int) == et);
    encode_utf8_valid_utf8(line@);
    assert(bytes[ea.len() as int] == es[0]);
    is_char_boundary_iff_not_is_continuation_byte(bytes, ea.len() as int);
    assert(is_char_boundary(bytes, split_offset(line) - 1));
    if t.len() > 0 {
        assert(bytes[ea.len() + 1int] == et[0]);
        is_char_boundary_iff_not_is_continuation_byte(bytes, ea.len() + 1int);
        assert(is_char_boundary(bytes, split_offset(line)));
    } else {
        assert(split_offset(line) == bytes.len());
        is_char_boundary_start_end_of_seq(bytes);
        assert(is_char_boundary(bytes, split_offset(line)));
    }
}

/// The line cut as the completer cuts it: the bytes before the byte before
/// [`split_offset`], and the bytes from it on. Where the characters after the
/// last space are ASCII, these are the text before the last space and the
/// text after it.
pub fn split_line_to_prefix_and_last_completion(line: &str) -> (r: (&str, &str))
    requires
        split_line_defined(line),
    ensures
        r.0.spec_bytes() == line.spec_bytes().subrange(0, split_offset(line) - 1),
        r.1.spec_bytes() == line.spec_bytes().subrange(
            split_offset(line),
            line.spec_bytes().len() as int,
        ),
        ascii_tail(line@) ==> r.0@ == line@.take(last_index_of(line@, ' ')),
        ascii_tail(line@) ==> r.1@ == line@.skip(last_index_of(line@, ' ') + 1),
{
    let chars = chars_of(line);
    let mut j = chars.len();
    proof {
        lemma_last_piece(line@, ' ');
        let k = choose|k: int| 0 <= k < line@.len() && line@[k] == ' ';
        assert(last_index_of(line@, ' ') >= 0);
        assert(chars@.take(j as int) == chars@);
        lemma_encode_len(line@);
    }
    while j > 0 && chars[j - 1] != ' '
        invariant
            j <= chars.len(),
            chars@ == line@,
            last_index_of(line@, ' ') == last_index_of(chars@.take(j as int), ' '),
            last_index_of(line@, ' ') >= 0,
        decreases j,
    {
        assert(chars@.take(j as int).drop_last() == chars@.take(j - 1));
        j = j - 1;
    }
    let after = chars.len() - j;
    let len = line.as_bytes().len();
    let last_space = len - after;
    proof {
        broadcast use vstd::slice::axiom_spec_len;
    }
    let (prefix, _) = line.split_at(last_space - 1);
    let (_, suffix) = line.split_at(last_space);
    proof {
        if ascii_tail(line@) {
            lemma_ascii_tail_split(line);
            lemma_encode_injective(prefix@, line@.take(last_index_of(line@, ' ')));
            lemma_encode_injective(suffix@, line@.skip(last_index_of(line@, ' ') + 1));
        }
    }
    (prefix, suffix)
}

/// Whether the completer's cut of `line` is defined, as [`split_line_defined`] says.
pub fn split_line_is_defined(line: &str) -> (r: bool)
    ensures
        r == split_line_defined(line),
{
    if !contains_char(line, ' ') {
        return false;
    }
    let chars = chars_of(line);
    let mut j = chars.len();
    proof {
        lemma_last_piece(line@, ' ');
        let k = choose|k: int| 0 <= k < line@.len() && line@[k] == ' ';
        assert(chars@.take(j as int) == chars@);
        lemma_encode_len(line@);
    }
    while j > 0 && chars[j - 1] != ' '
        invariant
            j <= chars.len(),
            chars@ == line@,
            last_index_of(line@, ' ') == last_index_of(chars@.take(j as int), ' '),
            last_index_of(line@, ' ') >= 0,
        decreases j,
    {
        assert(chars@.take(j as int).drop_last() == chars@.take(j - 1));
        j = j - 1;
    }
    let after = chars.len() - j;
    let len = line.as_bytes().len();
    let last_space = len - after;
    line.is_char_boundary(last_space - 1) && line.is_char_boundary(last_space)
}

/// What follows the last space is the word that completion works on.
pub proof fn law_completed_word_is_last_part(line: Seq<char>)
    requires
        line.contains(' '),
    ensures
        completion_args(line)[1] == line.skip(last_index_of(line, ' ') + 1),
        line.take(last_index_of(line, ' ')) + seq![' '] + line.skip(last_index_of(line, ' ') + 1)
            == line,
        !line.skip(last_index_of(line, ' ') + 1).contains(' '),
{
    lemma_last_piece(line, ' ');
    let k = last_index_of(line, ' ');
    let w = choose|i: int| 0 <= i < line.len() && line[i] == ' ';
    assert(k >= 0);
    assert(line.take(k) + seq![' '] + line.skip(k + 1) == line);
    let tail = line.skip(k + 1);
    if tail.contains(' ') {
        let i = choose|i: int| 0 <= i < tail.len() && #[trigger] tail[i] == ' ';
        assert(line[k + 1 + i] == ' ');
    }
}

} // verus!

verus! {

/// `rest` joined onto the directory `base` as `Path::join` joins them on Unix:
/// an absolute `rest` stands alone; otherwise a `/` goes between the two
/// unless `base` is empty or already ends with one.
pub open spec fn join_path(base: Seq<char>, rest: Seq<char>) -> Seq<char> {
    if rest.len() > 0 && rest[0] == '/' {
        rest
    } else if base.len() > 0 && base.last() != '/' {
        base + "/"@ + rest
    } else {
        base + rest
    }
}

/// `path` with a leading `~` taken as the home directory `home`: `~` alone is
/// the home directory, `~/rest` is `rest` in it, and any other path stays as
/// it is. `None` when the home directory is needed and unknown.
pub open spec fn expand_home(path: Seq<char>, home: Option<Seq<char>>) -> Option<Seq<char>> {
    if path == "~"@ {
        home
    } else if has_prefix(path, "~/"@) {
        match home {
            Some(h) => Some(join_path(h, path.skip(2))),
            None => None,
        }
    } else {
        Some(path)
    }
}

/// `rest` joined onto `base`, as [`join_path`] says.
pub fn join_path_text(base: &str, rest: &str) -> (r: String)
    ensures
        r@ == join_path(base@, rest@),
{
    let b = chars_of(base);
    let t = chars_of(rest);
    if t.len() > 0 && t[0] == '/' {
        rest.to_owned()
    } else if b.len() > 0 && b[b.len() - 1] != '/' {
        let mut r = base.to_owned();
        r.append("/");
        r.append(rest);
        r
    } else {
        let mut r = base.to_owned();
        r.append(rest);
        r
    }
}

/// `path` with its leading `~` expanded to `home`, as [`expand_home`] says.
pub fn home_path_expand(path: String, home: Option<String>) -> (r: Option<String>)
    ensures
        match r {
            Some(p) => expand_home(path@, match home { Some(h) => Some(h@), None => None }) == Some(p@),
            None => expand_home(path@, match home { Some(h) => Some(h@), None => None }) is None,
        },
{
    if text_eq(path.as_str(), "~") {
        home
    } else if starts_with(path.as_str(), "~/") {
        match home {
            Some(h) => {
                let chars = chars_of(path.as_str());
                proof {
                    reveal_strlit("~/");
                }
                let rest = string_from_chars(&chars, 2, chars.len());
                Some(join_path_text(h.as_str(), rest.as_str()))
            },
            None => None,
        }
    } else {
        Some(path)
    }
}

} // verus!

verus! {

/// A line whose command is neither refused nor invalid gives a command that
/// is known by the line's first word.
pub proof fn law_command_known_by_first_word(raw: Seq<char>)
    requires
        !(parse_command_spec(raw)[0].cmd is Invalid),
    ensures
        crate::command::command_name(parse_command_spec(raw)[0].cmd) == parse_line(raw).name,
{
}

} // verus!

verus! {

/// `echo` followed by plain words (none of them a redirection operator)
/// gives the `echo` command with exactly those words, with nothing around it,
/// and the shell prints them joined by single spaces.
pub proof fn law_echo_plain_words(words: Seq<Seq<char>>, input: Seq<char>, specs: Map<Seq<char>, Seq<char>>)
    requires
        forall|i: int| 0 <= i < words.len() ==> crate::arg_parser::is_plain_word(#[trigger] words[i]),
        forall|i: int| 0 <= i < words.len() ==> crate::arg_parser::redirect_op(#[trigger] words[i]) is None,
    ensures
        ({
            let line = crate::text::join_with(seq!["echo"@] + words, " "@);
            let c = parse_command_spec(line)[0];
            &&& c.cmd == CommandView::Echo(words)
            &&& c.stdout_redirect is None
            &&& c.stderr_redirect is None
            &&& crate::shell_context::plan(specs, c.cmd, input).1
                == crate::shell_context::ActionView::Print {
                out: Some(crate::text::join_with(words, " "@)),
                err: Some(Seq::empty()),
            }
        }),
{
    reveal_strlit("echo");
    reveal_strlit("exit");
    let all = seq!["echo"@] + words;
    assert forall|i: int| 0 <= i < all.len() implies crate::arg_parser::is_plain_word(#[trigger] all[i]) by {
        if i > 0 {
            assert(all[i] == words[i - 1]);
        }
    }
    crate::arg_parser::law_plain_words_round_trip(all);
    assert(all.skip(1) == words);
    crate::arg_parser::law_no_operators_no_redirects(words);
    let line = crate::text::join_with(all, " "@);
    assert(crate::arg_parser::split_words(line) == all);
    assert(all[0] == "echo"@);
    let l = parse_line(line);
    assert(l.name == "echo"@);
    assert(l.args == words);
    assert("echo"@ != "exit"@) by {
        assert("echo"@[1] != "exit"@[1]);
    }
    assert(identify(l.name, l.args) == Some(CommandView::Echo(words)));
}

} // verus!

verus! {

/// On a line without quotes or backslashes, a command that is not invalid is
/// known by the line's first whitespace-separated word (the empty command by
/// the empty word).
pub proof fn law_name_is_first_word(raw: Seq<char>)
    requires
        crate::arg_parser::unquoted(raw),
        !(parse_command_spec(raw)[0].cmd is Invalid),
    ensures
        crate::command::command_name(parse_command_spec(raw)[0].cmd) == crate::text::first_word(raw),
{
    law_command_known_by_first_word(raw);
    crate::arg_parser::law_unquoted_first_word(raw);
}

} // verus!

verus! {

/// A line that is not refused gives one command, which keeps the line's text
/// and both of the line's output redirections, and does not run in the
/// background.
pub proof fn law_command_keeps_redirects(raw: Seq<char>)
    requires
        identify(parse_line(raw).name, parse_line(raw).args) is Some,
    ensures
        parse_command_spec(raw).len() == 1,
        parse_command_spec(raw)[0].original == raw,
        !parse_command_spec(raw)[0].is_job,
        parse_command_spec(raw)[0].stdout_redirect == parse_line(raw).stdout_redirect,
        parse_command_spec(raw)[0].stderr_redirect == parse_line(raw).stderr_redirect,
{
}

/// A command of plain words followed by a redirection operator and a file
/// is that command, with the file as the redirection of the stream that the
/// operator names (standard error for `2`, standard output otherwise),
/// appended to for `>>` and truncated for `>`.
pub proof fn law_redirected_command(
    name: Seq<char>,
    args: Seq<Seq<char>>,
    number: Seq<char>,
    append: bool,
    file: Seq<char>,
)
    requires
        crate::arg_parser::is_plain_word(name),
        forall|i: int| 0 <= i < args.len() ==> crate::arg_parser::is_plain_word(#[trigger] args[i]),
        forall|i: int| 0 <= i < args.len() ==> crate::arg_parser::redirect_op(#[trigger] args[i]) is None,
        number == ""@ || number == "1"@ || number == "2"@,
        crate::arg_parser::is_plain_word(file),
        identify(name, args) is Some,
    ensures
        ({
            let op = number + if append { ">>"@ } else { ">"@ };
            let line = crate::text::join_with(seq![name] + args + seq![op, file], " "@);
            let r = Some(RedirectView { filename: file, is_append: append });
            let c = parse_command_spec(line);
            &&& c.len() == 1
            &&& c[0].cmd == identify(name, args)->0
            &&& c[0].stdout_redirect == if number == "2"@ { None } else { r }
            &&& c[0].stderr_redirect == if number == "2"@ { r } else { None }
        }),
{
    crate::arg_parser::law_redirected_line(name, args, number, append, file);
    let op = number + if append { ">>"@ } else { ">"@ };
    let line = crate::text::join_with(seq![name] + args + seq![op, file], " "@);
    law_command_keeps_redirects(line);
}

} // verus!

verus! {

/// `history -w <file>` overwrites the file with the history and
/// `history -a <file>` appends to it: each gives the history save of that
/// file, overwriting for `-w` and appending for `-a`, and the shell saves it
/// so.
pub proof fn law_history_write_and_append(
    file: Seq<char>,
    append: bool,
    specs: Map<Seq<char>, Seq<char>>,
    input: Seq<char>,
)
    requires
        crate::arg_parser::is_plain_word(file),
    ensures
        ({
            let option = if append { "-a"@ } else { "-w"@ };
            let line = crate::text::join_with(seq!["history"@, option, file], " "@);
            let c = parse_command_spec(line);
            &&& c.len() == 1
            &&& c[0].cmd == CommandView::HistorySave(file, append)
            &&& c[0].stdout_redirect is None
            &&& c[0].stderr_redirect is None
            &&& crate::shell_context::plan(specs, c[0].cmd, input).1
                == crate::shell_context::ActionView::SaveHistory(file, append)
        }),
{
    reveal_strlit("history");
    reveal_strlit("-a");
    reveal_strlit("-w");
    reveal_strlit("-r");
    reveal_strlit("exit");
    reveal_strlit("echo");
    reveal_strlit("type");
    reveal_strlit("pwd");
    reveal_strlit(">");
    reveal_strlit(">>");
    reveal_strlit("1>");
    reveal_strlit("1>>");
    reveal_strlit("2>");
    reveal_strlit("2>>");
    let option = if append { "-a"@ } else { "-w"@ };
    let all = seq!["history"@, option, file];
    assert(crate::arg_parser::is_plain('-') && crate::arg_parser::is_plain('a')
        && crate::arg_parser::is_plain('w'));
    assert forall|i: int| 0 <= i < all.len() implies crate::arg_parser::is_plain_word(#[trigger] all[i]) by {
        if i == 0 {
            assert(crate::arg_parser::is_plain_word("history"@)) by {
                assert forall|j: int| 0 <= j < 7 implies crate::arg_parser::is_plain(#[trigger] "history"@[j]) by {}
            }
        } else if i == 1 {
            assert(crate::arg_parser::is_plain_word(option)) by {
                assert forall|j: int| 0 <= j < 2 implies crate::arg_parser::is_plain(#[trigger] option[j]) by {}
            }
        }
    }
    crate::arg_parser::law_plain_words_round_trip(all);
    let line = crate::text::join_with(all, " "@);
    let args = all.skip(1);
    assert(args == seq![option, file]);
    assert(crate::arg_parser::redirect_op(option) is None) by {
        assert(option[0] == '-');
        assert(option != ">"@ && option != "1>"@ && option != "2>"@ && option != ">>"@ && option
            != "1>>"@ && option != "2>>"@) by {
            assert(">"@[0] != '-' && "1>"@[0] != '-' && "2>"@[0] != '-' && ">>"@[0] != '-' && "1>>"@[0]
                != '-' && "2>>"@[0] != '-');
        }
    }
    assert(args.skip(1) == seq![file]);
    assert(crate::arg_parser::strip_redirects(args.skip(1)) == (seq![file], None::<RedirectView>, None::<RedirectView>));
    assert(seq![option] + seq![file] == args);
    let l = parse_line(line);
    assert(l.name == "history"@);
    assert(l.args == args);
    assert(l.stdout_redirect is None && l.stderr_redirect is None);
    assert("history"@ != "exit"@ && "history"@ != "echo"@ && "history"@ != "type"@ && "history"@
        != "pwd"@);
    assert(option != "-r"@) by {
        assert(option[1] != "-r"@[1]);
    }
    if append {
        assert(option != "-w"@) by {
            assert(option[1] != "-w"@[1]);
        }
    }
    assert(identify(l.name, l.args) == Some(CommandView::HistorySave(file, append)));
}

} // verus!

verus! {

/// The shell's own commands by their names and options: `echo` with any
/// words, `type`, `cd` with one word, `exit` with none (code 0) or with a
/// number, `history` with none (every line), `-r`, `-w`, `-a` and a file,
/// `complete` with `-p` or `-r` and a command or with `-C`, a script and a
/// command, `declare -p` and a name; any other non-empty name is a program
/// to run with its words.
pub proof fn law_builtin_commands(x: Seq<char>, y: Seq<char>, args: Seq<Seq<char>>, code: i32)
    ensures
        identify("echo"@, args) == Some(CommandView::Echo(args)),
        identify("type"@, seq![x]) == Some(CommandView::Type(x)),
        identify("cd"@, seq![x]) == Some(CommandView::Cd(x)),
        identify("pwd"@, args) == Some(CommandView::Pwd),
        identify("jobs"@, args) == Some(CommandView::Jobs),
        identify("exit"@, Seq::empty()) == Some(CommandView::Exit(0)),
        identify(
            "exit"@,
            seq![
                if code < 0 {
                    seq!['-'] + crate::number::decimal((0 - code) as nat)
                } else {
                    crate::number::decimal(code as nat)
                },
            ],
        ) == Some(CommandView::Exit(code)),
        identify("history"@, Seq::empty()) == Some(CommandView::History(usize::MAX)),
        identify("history"@, seq!["-r"@, x]) == Some(CommandView::HistoryAppend(x)),
        identify("history"@, seq!["-w"@, x]) == Some(CommandView::HistorySave(x, false)),
        identify("history"@, seq!["-a"@, x]) == Some(CommandView::HistorySave(x, true)),
        identify("complete"@, seq!["-p"@, x]) == Some(CommandView::CompleteGet(x)),
        identify("complete"@, seq!["-r"@, x]) == Some(CommandView::CompleteRemove(x)),
        identify("complete"@, seq!["-C"@, x, y]) == Some(
            (CommandView::CompleteSet { script_path: x, command: y }),
        ),
        identify("declare"@, seq!["-p"@, x]) == Some(CommandView::DeclarePrint(x)),
        x.len() > 0 && !shell_builtin_commands().contains(x) ==> identify(x, args) == Some(
            CommandView::Unknown(x, args),
        ),
{
    reveal_strlit("echo");
    reveal_strlit("type");
    reveal_strlit("exit");
    reveal_strlit("pwd");
    reveal_strlit("cd");
    reveal_strlit("history");
    reveal_strlit("jobs");
    reveal_strlit("complete");
    reveal_strlit("declare");
    reveal_strlit("-r");
    reveal_strlit("-w");
    reveal_strlit("-a");
    reveal_strlit("-p");
    reveal_strlit("-C");
    assert("echo"@ != "exit"@) by { assert("echo"@[1] != "exit"@[1]); }
    assert("type"@ != "exit"@ && "type"@ != "echo"@) by { assert("type"@[0] != "exit"@[0] && "type"@[0] != "echo"@[0]); }
    assert("jobs"@ != "exit"@ && "jobs"@ != "echo"@ && "jobs"@ != "type"@) by {
        assert("jobs"@[0] != "exit"@[0] && "jobs"@[0] != "echo"@[0] && "jobs"@[0] != "type"@[0]);
    }
    assert("history"@.len() == 7 && "complete"@.len() == 8 && "exit"@.len() == 4 && "echo"@.len() == 4
        && "type"@.len() == 4 && "pwd"@.len() == 3 && "cd"@.len() == 2 && "jobs"@.len() == 4);
    assert("history"@ != "exit"@ && "history"@ != "echo"@ && "history"@ != "type"@ && "history"@ != "pwd"@);
    assert("complete"@ != "exit"@ && "complete"@ != "echo"@ && "complete"@ != "type"@ && "complete"@
        != "pwd"@ && "complete"@ != "history"@ && "complete"@ != "cd"@ && "complete"@ != "jobs"@);
    assert("declare"@ != "exit"@ && "declare"@ != "echo"@ && "declare"@ != "type"@ && "declare"@
        != "pwd"@ && "declare"@ != "history"@ && "declare"@ != "cd"@ && "declare"@ != "jobs"@
        && "declare"@ != "complete"@) by {
        assert("declare"@[0] != "history"@[0]);
    }
    assert("-w"@ != "-r"@) by { assert("-w"@[1] != "-r"@[1]); }
    assert("-a"@ != "-r"@ && "-a"@ != "-w"@) by { assert("-a"@[1] != "-r"@[1] && "-a"@[1] != "-w"@[1]); }
    assert("-p"@ != "-r"@) by { assert("-p"@[1] != "-r"@[1]); }
    assert("-C"@ != "-r"@ && "-C"@ != "-p"@) by { assert("-C"@[1] != "-r"@[1] && "-C"@[1] != "-p"@[1]); }
    crate::number::law_signed_decimal_round_trip(code, 0);
    if x.len() > 0 && !shell_builtin_commands().contains(x) {
        assert(x != "echo"@ && x != "type"@ && x != "exit"@ && x != "pwd"@ && x != "cd"@ && x
            != "history"@ && x != "jobs"@ && x != "complete"@ && x != "declare"@) by {
            let b = shell_builtin_commands();
            assert(b[0] == "echo"@ && b[1] == "type"@ && b[2] == "exit"@ && b[3] == "pwd"@ && b[4]
                == "cd"@ && b[5] == "history"@ && b[6] == "jobs"@ && b[7] == "complete"@ && b[8]
                == "declare"@);
        }
    }
}

} // verus!

verus! {

/// A line of plain words, none of them after the first a redirection
/// operator, gives the command that its first word names with the other
/// words as arguments, with no redirection, unless that command refuses the
/// line.
pub proof fn law_plain_line_command(words: Seq<Seq<char>>)
    requires
        words.len() > 0,
        forall|i: int| 0 <= i < words.len() ==> crate::arg_parser::is_plain_word(#[trigger] words[i]),
        forall|i: int| 1 <= i < words.len() ==> crate::arg_parser::redirect_op(#[trigger] words[i]) is None,
    ensures
        ({
            let line = crate::text::join_with(words, " "@);
            match identify(words[0], words.skip(1)) {
                Some(cmd) => parse_command_spec(line) == seq![
                    ContextView {
                        original: line,
                        cmd: cmd,
                        is_job: false,
                        stdout_redirect: None,
                        stderr_redirect: None,
                    },
                ],
                None => parse_command_spec(line) == seq![invalid_context()],
            }
        }),
{
    crate::arg_parser::law_plain_words_round_trip(words);
    let args = words.skip(1);
    assert forall|i: int| 0 <= i < args.len() implies crate::arg_parser::redirect_op(#[trigger] args[i]) is None by {
        assert(args[i] == words[i + 1]);
    }
    crate::arg_parser::law_no_operators_no_redirects(args);
}

} // verus!

verus! {

/// For a line of words separated by single spaces, a completion script is
/// given the first word, the last word (the one being completed) and the
/// word before the last (empty when there is only one word).
pub proof fn law_completion_args_of_words(words: Seq<Seq<char>>)
    requires
        words.len() > 0,
        forall|i: int| 0 <= i < words.len() ==> !(#[trigger] words[i]).contains(' '),
    ensures
        completion_args(crate::text::join_with(words, " "@)) == seq![
            words[0],
            words.last(),
            if words.len() >= 2 {
                words[words.len() - 2]
            } else {
                Seq::empty()
            },
        ],
{
    reveal_strlit(" ");
    assert(" "@ == seq![' ']);
    crate::text::law_split_join(words, ' ');
}

} // verus!

verus! {

/// `~` is the home directory and `~/<rest>` is `<rest>` inside it (with one
/// `/` between them when the home directory does not end with one); either
/// has no expansion when the home directory is unknown. A path that does
/// not start with `~` is left as it is.
pub proof fn law_home_expansion(home: Seq<char>, rest: Seq<char>, path: Seq<char>)
    ensures
        expand_home("~"@, Some(home)) == Some(home),
        expand_home("~"@, None) == None::<Seq<char>>,
        expand_home("~/"@ + rest, None) == None::<Seq<char>>,
        home.len() > 0 && home.last() != '/' && !(rest.len() > 0 && rest[0] == '/') ==> expand_home(
            "~/"@ + rest,
            Some(home),
        ) == Some(home + "/"@ + rest),
        home.len() > 0 && home.last() == '/' && !(rest.len() > 0 && rest[0] == '/') ==> expand_home(
            "~/"@ + rest,
            Some(home),
        ) == Some(home + rest),
        !(path.len() > 0 && path[0] == '~') ==> expand_home(path, Some(home)) == Some(path)
            && expand_home(path, None) == Some(path),
{
    reveal_strlit("~");
    reveal_strlit("~/");
    let p = "~/"@ + rest;
    assert(p != "~"@) by {
        assert(p.len() >= 2);
    }
    assert(p.take(2) == "~/"@);
    assert(p.skip(2) == rest);
    if !(path.len() > 0 && path[0] == '~') {
        assert(path != "~"@) by {
            if path == "~"@ {
                assert(path[0] == '~');
            }
        }
        assert(!has_prefix(path, "~/"@)) by {
            if has_prefix(path, "~/"@) {
                assert(path[0] == path.take(2)[0]);
            }
        }
    }
}

} // verus!
