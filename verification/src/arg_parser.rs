//! Splitting a command line into words, honouring quotes and backslashes,
//! and pulling the output redirections out of the words.

use vstd::prelude::*;

use crate::redirect::{Redirect, RedirectView, redirect_view};
use crate::text::{char_is_whitespace, chars_of, is_white_space, push_char, text_eq};

verus! {

/// What the scanner is in the middle of.
#[derive(Clone, Copy, Debug)]
pub enum CommandParseState {
    /// Between words: whitespace is dropped.
    DropSection,
    /// Inside an unquoted part of a word.
    WordSection,
    /// Inside `'...'`: every character is literal.
    SingleQuoteSection,
    /// Inside `"..."`: a backslash escapes `"`, `$`, `` ` ``, `\` and a newline.
    DoubleQuoteSection,
}

/// A command line split into its name, its arguments and its redirections.
pub struct UnidentifiedCommand {
    pub name: String,
    pub args: Vec<String>,
    pub stdout_redirect: Option<Redirect>,
    pub stderr_redirect: Option<Redirect>,
}

/// The model of an [`UnidentifiedCommand`].
pub struct CommandLine {
    pub name: Seq<char>,
    pub args: Seq<Seq<char>>,
    pub stdout_redirect: Option<RedirectView>,
    pub stderr_redirect: Option<RedirectView>,
}

impl View for UnidentifiedCommand {
    type V = CommandLine;

    open spec fn view(&self) -> CommandLine {
        CommandLine {
            name: self.name@,
            args: self.args.deep_view(),
            stdout_redirect: redirect_view(self.stdout_redirect),
            stderr_redirect: redirect_view(self.stderr_redirect),
        }
    }
}

/// The state of the scanner at some point of a line: the position of the
/// character under it, its section, the word being built and the words done.
pub struct Scan {
    pub pos: int,
    pub state: CommandParseState,
    pub buf: Seq<char>,
    pub parts: Seq<Seq<char>>,
}

/// The characters that a backslash escapes inside double quotes.
pub open spec fn is_dq_escapable(c: char) -> bool {
    c == '"' || c == '$' || c == '`' || c == '\\' || c == '\n'
}

/// Takes the character under the scanner into the current word. A backslash
/// in an unquoted word, or one before an escapable character inside double
/// quotes, is skipped and the character after it is taken instead (nothing,
/// at the end of the line).
pub open spec fn push_scan(chars: Seq<char>, s: Scan) -> Scan {
    let p = if chars[s.pos] == '\\' {
        match s.state {
            CommandParseState::WordSection => s.pos + 1,
            CommandParseState::DoubleQuoteSection => if s.pos + 1 < chars.len() && is_dq_escapable(
                chars[s.pos + 1],
            ) {
                s.pos + 1
            } else {
                s.pos
            },
            _ => s.pos,
        }
    } else {
        s.pos
    };
    Scan {
        pos: p,
        state: s.state,
        buf: if p < chars.len() {
            s.buf.push(chars[p])
        } else {
            s.buf
        },
        parts: s.parts,
    }
}

/// `s` with its section changed to `state`.
pub open spec fn enter(s: Scan, state: CommandParseState) -> Scan {
    Scan { pos: s.pos, state: state, buf: s.buf, parts: s.parts }
}

/// `s` with the current word finished and the scanner between words.
pub open spec fn emit(s: Scan) -> Scan {
    Scan {
        pos: s.pos,
        state: CommandParseState::DropSection,
        buf: Seq::empty(),
        parts: s.parts.push(s.buf),
    }
}

/// `s` moved `n` characters on.
pub open spec fn advance(s: Scan, n: int) -> Scan {
    Scan { pos: s.pos + n, state: s.state, buf: s.buf, parts: s.parts }
}

/// What happens at a closing quote: directly followed by the other quote the
/// word goes on in that quote, by the same quote it goes on in this one, by
/// another character that is not whitespace it goes on unquoted; followed by
/// whitespace or the end of the line, the word is finished.
pub open spec fn close_quote(chars: Seq<char>, s: Scan, this: char, other: CommandParseState) -> Scan {
    if s.pos + 1 < chars.len() && !is_white_space(chars[s.pos + 1]) {
        if chars[s.pos + 1] == this {
            advance(s, 1)
        } else if chars[s.pos + 1] == '\'' || chars[s.pos + 1] == '"' {
            enter(advance(s, 1), other)
        } else {
            enter(s, CommandParseState::WordSection)
        }
    } else {
        emit(s)
    }
}

/// One step of the scanner on the character under it, before it moves on.
pub open spec fn react(chars: Seq<char>, s: Scan) -> Scan {
    let c = chars[s.pos];
    match s.state {
        CommandParseState::DropSection => if is_white_space(c) {
            s
        } else if c == '\'' {
            enter(s, CommandParseState::SingleQuoteSection)
        } else if c == '"' {
            enter(s, CommandParseState::DoubleQuoteSection)
        } else {
            push_scan(chars, enter(s, CommandParseState::WordSection))
        },
        CommandParseState::SingleQuoteSection => if c == '\'' {
            close_quote(chars, s, '\'', CommandParseState::DoubleQuoteSection)
        } else {
            push_scan(chars, s)
        },
        CommandParseState::DoubleQuoteSection => if c == '"' {
            close_quote(chars, s, '"', CommandParseState::SingleQuoteSection)
        } else {
            push_scan(chars, s)
        },
        CommandParseState::WordSection => if is_white_space(c) {
            emit(s)
        } else if c == '\'' {
            enter(s, CommandParseState::SingleQuoteSection)
        } else if c == '"' {
            enter(s, CommandParseState::DoubleQuoteSection)
        } else {
            push_scan(chars, s)
        },
    }
}

/// One full step: react to the character under the scanner, then move on.
pub open spec fn step(chars: Seq<char>, s: Scan) -> Scan {
    advance(react(chars, s), 1)
}

/// The scanner run from `s` to the end of the line.
pub open spec fn run(chars: Seq<char>, s: Scan) -> Scan
    decreases chars.len() + 1 - s.pos,
{
    if 0 <= s.pos < chars.len() {
        run(chars, step(chars, s))
    } else {
        s
    }
}

/// The words that a finished scan holds: a word still unquoted at the end of
/// the line counts, one inside an unclosed quote does not.
pub open spec fn finish(s: Scan) -> Seq<Seq<char>> {
    match s.state {
        CommandParseState::WordSection => s.parts.push(s.buf),
        _ => s.parts,
    }
}

/// The scanner at the start of a line.
pub open spec fn initial_scan() -> Scan {
    Scan { pos: 0, state: CommandParseState::DropSection, buf: Seq::empty(), parts: Seq::empty() }
}

/// The words of a command line.
pub open spec fn split_words(line: Seq<char>) -> Seq<Seq<char>> {
    finish(run(line, initial_scan()))
}

/// The kind of an output redirection operator: whether it redirects standard
/// error (rather than standard output), and whether it appends.
pub open spec fn redirect_op(w: Seq<char>) -> Option<(bool, bool)> {
    if w == ">"@ || w == "1>"@ {
        Some((false, false))
    } else if w == "2>"@ {
        Some((true, false))
    } else if w == ">>"@ || w == "1>>"@ {
        Some((false, true))
    } else if w == "2>>"@ {
        Some((true, true))
    } else {
        None
    }
}

/// The later of two redirections of one stream: `later` where there is one.
pub open spec fn later_redirect(earlier: Option<RedirectView>, later: Option<RedirectView>) -> Option<RedirectView> {
    if later is Some {
        later
    } else {
        earlier
    }
}

/// The words with their redirections taken out, with the last redirection of
/// each stream. An operator takes the word after it as its file; an operator
/// that is the last word stays a word.
pub open spec fn strip_redirects(args: Seq<Seq<char>>) -> (
    Seq<Seq<char>>,
    Option<RedirectView>,
    Option<RedirectView>,
)
    decreases args.len(),
{
    if args.len() < 2 {
        (args, None, None)
    } else {
        match redirect_op(args[0]) {
            Some((to_stderr, append)) => {
                let r = strip_redirects(args.skip(2));
                let this = Some(RedirectView { filename: args[1], is_append: append });
                if to_stderr {
                    (r.0, r.1, later_redirect(this, r.2))
                } else {
                    (r.0, later_redirect(this, r.1), r.2)
                }
            },
            None => {
                let r = strip_redirects(args.skip(1));
                (seq![args[0]] + r.0, r.1, r.2)
            },
        }
    }
}

/// Words kept and redirections found so far, joined with what the rest of
/// the words give.
pub open spec fn join_stripped(
    kept: Seq<Seq<char>>,
    out: Option<RedirectView>,
    err: Option<RedirectView>,
    rest: (Seq<Seq<char>>, Option<RedirectView>, Option<RedirectView>),
) -> (Seq<Seq<char>>, Option<RedirectView>, Option<RedirectView>) {
    (kept + rest.0, later_redirect(out, rest.1), later_redirect(err, rest.2))
}

/// The command line that a name and its words make.
pub open spec fn command_line(name: Seq<char>, args: Seq<Seq<char>>) -> CommandLine {
    let r = strip_redirects(args);
    CommandLine { name: name, args: r.0, stdout_redirect: r.1, stderr_redirect: r.2 }
}

/// The command line that a list of words makes: the first word is the name.
pub open spec fn command_line_of_words(words: Seq<Seq<char>>) -> CommandLine {
    if words.len() < 1 {
        CommandLine {
            name: Seq::empty(),
            args: Seq::empty(),
            stdout_redirect: None,
            stderr_redirect: None,
        }
    } else {
        command_line(words[0], words.skip(1))
    }
}

/// The command line that a line of text makes.
pub open spec fn parse_line(line: Seq<char>) -> CommandLine {
    command_line_of_words(split_words(line))
}

/// A scanner over one command line.
pub struct ArgParser {
    chars: Vec<char>,
    i: usize,
    buf: String,
    state: CommandParseState,
}

impl ArgParser {
    /// The characters of the line.
    pub closed spec fn line(&self) -> Seq<char> {
        self.chars@
    }

    /// The scanner's state, with `parts` as the words done so far.
    pub closed spec fn scan(&self, parts: Seq<Seq<char>>) -> Scan {
        Scan { pos: self.i as int, state: self.state, buf: self.buf@, parts: parts }
    }

    /// The line's length leaves room in a `usize` for a position one past its end.
    pub closed spec fn wf(&self) -> bool {
        self.chars.len() < usize::MAX
    }

    /// A scanner at the start of `raw`.
    pub fn new(raw: &str) -> (r: Self)
        requires
            raw@.len() < usize::MAX,
        ensures
            r.wf(),
            r.line() == raw@,
            r.pos() == 0,
            r.scan(Seq::empty()) == initial_scan(),
    {
        ArgParser {
            chars: chars_of(raw),
            i: 0,
            buf: String::new(),
            state: CommandParseState::DropSection,
        }
    }

    /// The position of the scanner.
    pub closed spec fn pos(&self) -> int {
        self.i as int
    }

    /// The position of the scanner's state is the scanner's position.
    pub proof fn lemma_scan_pos(&self, parts: Seq<Seq<char>>)
        ensures
            self.scan(parts).pos == self.pos(),
            self.scan(parts).parts == parts,
    {
    }

    /// Whether the scanner is past the last character.
    pub fn at_end(&self) -> (r: bool)
        ensures
            r == (self.pos() >= self.line().len()),
    {
        self.i >= self.chars.len()
    }

    /// The character under the scanner.
    pub fn current(&self) -> (c: char)
        requires
            self.pos() < self.line().len(),
        ensures
            c == self.line()[self.pos()],
    {
        self.chars[self.i]
    }

    /// Whether there are more than `n` characters from the scanner on.
    pub fn has_n_more(&self, n: usize) -> (r: bool)
        requires
            self.pos() + n <= usize::MAX,
        ensures
            r == (self.line().len() > self.pos() + n),
    {
        self.chars.len() > self.i + n
    }

    /// The character after the one under the scanner.
    pub fn peek(&self) -> (c: char)
        requires
            self.pos() + 1 < self.line().len(),
        ensures
            c == self.line()[self.pos() + 1],
    {
        self.peekn(1)
    }

    /// The character `n` places after the one under the scanner.
    pub fn peekn(&self, n: usize) -> (c: char)
        requires
            self.pos() + n < self.line().len(),
        ensures
            c == self.line()[self.pos() + n],
    {
        assert(self.chars@.len() == self.chars.len());
        self.chars[self.i + n]
    }

    /// Moves the scanner one character on.
    pub fn next(&mut self)
        requires
            old(self).wf(),
            old(self).pos() < usize::MAX,
        ensures
            final(self).wf(),
            final(self).line() == old(self).line(),
            forall|parts: Seq<Seq<char>>|
                final(self).scan(parts) == advance(old(self).scan(parts), 1),
    {
        self.i = self.i + 1;
    }

    /// Takes the character under the scanner into the current word, as
    /// [`push_scan`] says.
    pub fn push(&mut self)
        requires
            old(self).wf(),
            old(self).pos() < old(self).line().len(),
        ensures
            final(self).wf(),
            final(self).line() == old(self).line(),
            final(self).pos() <= old(self).line().len(),
            forall|parts: Seq<Seq<char>>|
                final(self).scan(parts) == push_scan(old(self).line(), old(self).scan(parts)),
    {
        let ghost before = *self;
        if self.current() == '\\' {
            match self.state {
                CommandParseState::WordSection => {
                    self.next();
                    assert(self.scan(Seq::empty()) == advance(before.scan(Seq::empty()), 1));
                },
                CommandParseState::DoubleQuoteSection => {
                    if self.has_n_more(1) {
                        if is_double_quote_escapable(self.peek()) {
                            self.next();
                            assert(self.scan(Seq::empty()) == advance(before.scan(Seq::empty()), 1));
                        }
                    }
                },
                _ => {},
            }
        }
        if !self.at_end() {
            let c = self.current();
            push_char(&mut self.buf, c);
        }
    }
}

/// Running the scanner from a position on the line is one step, then the rest.
pub proof fn lemma_run_step(chars: Seq<char>, s: Scan)
    requires
        0 <= s.pos < chars.len(),
    ensures
        run(chars, s) == run(chars, step(chars, s)),
{
}

impl ArgParser {
    /// Scans the rest of the line and splits the words into a command line:
    /// the words are those of [`split_words`], the first is the name and the
    /// others go through [`strip_redirects`]. Never `None`.
    pub fn parse(self) -> (r: Option<UnidentifiedCommand>)
        requires
            self.wf(),
        ensures
            r is Some,
            r.unwrap()@ == command_line_of_words(finish(run(self.line(), self.scan(Seq::empty())))),
    {
        let mut p = self;
        let ghost chars = p.line();
        let ghost start = p.scan(Seq::empty());
        let mut parts: Vec<String> = Vec::new();
        assert(parts.deep_view() == Seq::<Seq<char>>::empty());
        while !p.at_end()
            invariant
                p.wf(),
                p.line() == chars,
                run(chars, p.scan(parts.deep_view())) == run(chars, start),
            decreases chars.len() + 1 - p.pos(),
        {
            let ghost s0 = p.scan(parts.deep_view());
            proof {
                lemma_run_step(chars, s0);
            }
            let c = p.current();
            match p.state {
                CommandParseState::DropSection => {
                    if char_is_whitespace(c) {
                    } else if c == '\'' {
                        p.state = CommandParseState::SingleQuoteSection;
                    } else if c == '"' {
                        p.state = CommandParseState::DoubleQuoteSection;
                    } else {
                        p.state = CommandParseState::WordSection;
                        p.push();
                    }
                },
                CommandParseState::SingleQuoteSection => {
                    if c == '\'' {
                        if p.has_n_more(1) && !char_is_whitespace(p.peek()) {
                            if p.peek() == '\'' {
                                p.next();
                                assert(p.scan(parts.deep_view()) == advance(s0, 1));
                            } else if p.peek() == '"' {
                                p.next();
                                assert(p.scan(parts.deep_view()) == advance(s0, 1));
                                p.state = CommandParseState::DoubleQuoteSection;
                            } else {
                                p.state = CommandParseState::WordSection;
                            }
                        } else {
                            p.state = CommandParseState::DropSection;
                            let ghost before = parts.deep_view();
                            parts.push(p.buf.clone());
                            assert(parts.deep_view() == before.push(p.buf@));
                            p.buf = String::new();
                        }
                    } else {
                        p.push();
                    }
                },
                CommandParseState::DoubleQuoteSection => {
                    if c == '"' {
                        if p.has_n_more(1) && !char_is_whitespace(p.peek()) {
                            if p.peek() == '\'' {
                                p.next();
                                assert(p.scan(parts.deep_view()) == advance(s0, 1));
                                p.state = CommandParseState::SingleQuoteSection;
                            } else if p.peek() == '"' {
                                p.next();
                                assert(p.scan(parts.deep_view()) == advance(s0, 1));
                            } else {
                                p.state = CommandParseState::WordSection;
                            }
                        } else {
                            p.state = CommandParseState::DropSection;
                            let ghost before = parts.deep_view();
                            parts.push(p.buf.clone());
                            assert(parts.deep_view() == before.push(p.buf@));
                            p.buf = String::new();
                        }
                    } else {
                        p.push();
                    }
                },
                CommandParseState::WordSection => {
                    if char_is_whitespace(c) {
                        p.state = CommandParseState::DropSection;
                        let ghost before = parts.deep_view();
                        parts.push(p.buf.clone());
                        assert(parts.deep_view() == before.push(p.buf@));
                        p.buf = String::new();
                    } else if c == '\'' {
                        p.state = CommandParseState::SingleQuoteSection;
                    } else if c == '"' {
                        p.state = CommandParseState::DoubleQuoteSection;
                    } else {
                        p.push();
                    }
                },
            }
            assert(p.scan(parts.deep_view()) == react(chars, s0));
            p.next();
        }
        if let CommandParseState::WordSection = p.state {
            let ghost before = parts.deep_view();
            parts.push(p.buf.clone());
            assert(parts.deep_view() == before.push(p.buf@));
        }
        let ghost words = parts.deep_view();
        if parts.len() < 1 {
            Some(
                UnidentifiedCommand {
                    name: String::new(),
                    args: Vec::new(),
                    stdout_redirect: None,
                    stderr_redirect: None,
                },
            )
        } else {
            let name = parts.remove(0);
            assert(parts.deep_view() == words.skip(1));
            Some(ArgParser::build_unidentified_command(name, parts))
        }
    }

    /// Takes the output redirections out of `args`, as [`strip_redirects`] says.
    pub fn build_unidentified_command(name: String, args: Vec<String>) -> (r: UnidentifiedCommand)
        ensures
            r@ == command_line(name@, args.deep_view()),
    {
        let ghost words = args.deep_view();
        let mut kept: Vec<String> = Vec::new();
        let mut stdout_redirect: Option<Redirect> = None;
        let mut stderr_redirect: Option<Redirect> = None;
        let mut i: usize = 0;
        assert(words.skip(0) == words);
        while args.len() - i > 1
            invariant
                i <= args.len(),
                words == args.deep_view(),
                strip_redirects(words) == join_stripped(
                    kept.deep_view(),
                    redirect_view(stdout_redirect),
                    redirect_view(stderr_redirect),
                    strip_redirects(words.skip(i as int)),
                ),
            decreases args.len() - i,
        {
            let ghost rest = words.skip(i as int);
            assert(rest[0] == words[i as int]);
            assert(rest.skip(2) == words.skip(i + 2));
            assert(rest.skip(1) == words.skip(i + 1));
            match redirect_kind(&args[i]) {
                Some((to_stderr, append)) => {
                    let r = Some(Redirect { filename: args[i + 1].clone(), is_append: append });
                    assert(rest[1] == words[i + 1]);
                    if to_stderr {
                        stderr_redirect = r;
                    } else {
                        stdout_redirect = r;
                    }
                    i = i + 2;
                },
                None => {
                    let ghost before = kept.deep_view();
                    kept.push(args[i].clone());
                    assert(kept.deep_view() == before.push(words[i as int]));
                    assert(before.push(words[i as int]) + strip_redirects(words.skip(i + 1)).0 == before
                        + (seq![words[i as int]] + strip_redirects(words.skip(i + 1)).0));
                    i = i + 1;
                },
            }
        }
        let ghost stop = i;
        let ghost head = kept.deep_view();
        while i < args.len()
            invariant
                stop <= i <= args.len(),
                words == args.deep_view(),
                kept.deep_view() == head + words.subrange(stop as int, i as int),
            decreases args.len() - i,
        {
            let ghost before = kept.deep_view();
            kept.push(args[i].clone());
            assert(kept.deep_view() == before.push(words[i as int]));
            assert(words.subrange(stop as int, i + 1) == words.subrange(stop as int, i as int).push(
                words[i as int],
            ));
            assert(kept.deep_view() == head + words.subrange(stop as int, i + 1));
            i = i + 1;
        }
        assert(words.subrange(stop as int, words.len() as int) == words.skip(stop as int));
        UnidentifiedCommand { name, args: kept, stdout_redirect, stderr_redirect }
    }
}

/// The kind of redirection operator that `w` is, if it is one.
pub fn redirect_kind(w: &String) -> (r: Option<(bool, bool)>)
    ensures
        r == redirect_op(w@),
{
    if text_eq(w.as_str(), ">") || text_eq(w.as_str(), "1>") {
        Some((false, false))
    } else if text_eq(w.as_str(), "2>") {
        Some((true, false))
    } else if text_eq(w.as_str(), ">>") || text_eq(w.as_str(), "1>>") {
        Some((false, true))
    } else if text_eq(w.as_str(), "2>>") {
        Some((true, true))
    } else {
        None
    }
}

/// Whether a backslash inside double quotes escapes `c`.
pub fn is_double_quote_escapable(c: char) -> (r: bool)
    ensures
        r == is_dq_escapable(c),
{
    c == '"' || c == '$' || c == '`' || c == '\\' || c == '\n'
}

} // verus!

verus! {

/// A character that the scanner takes as it is outside quotes: not
/// whitespace, not a quote, not a backslash.
pub open spec fn is_plain(c: char) -> bool {
    !is_white_space(c) && c != '\'' && c != '"' && c != '\\'
}

/// A non-empty word of plain characters.
pub open spec fn is_plain_word(w: Seq<char>) -> bool {
    w.len() > 0 && forall|i: int| 0 <= i < w.len() ==> is_plain(#[trigger] w[i])
}

/// Inside an unquoted word, a stretch of plain characters joins the word.
proof fn lemma_plain_stretch(line: Seq<char>, s: Scan, q: int)
    requires
        s.state == CommandParseState::WordSection,
        0 <= s.pos <= q <= line.len(),
        forall|i: int| s.pos <= i < q ==> is_plain(#[trigger] line[i]),
    ensures
        run(line, s) == run(
            line,
            Scan {
                pos: q,
                state: CommandParseState::WordSection,
                buf: s.buf + line.subrange(s.pos, q),
                parts: s.parts,
            },
        ),
    decreases q - s.pos,
{
    if s.pos < q {
        lemma_run_step(line, s);
        let t = step(line, s);
        assert(is_plain(line[s.pos]));
        assert(t == Scan {
            pos: s.pos + 1,
            state: CommandParseState::WordSection,
            buf: s.buf.push(line[s.pos]),
            parts: s.parts,
        });
        lemma_plain_stretch(line, t, q);
        assert(s.buf.push(line[s.pos]) + line.subrange(s.pos + 1, q) == s.buf + line.subrange(
            s.pos,
            q,
        ));
    } else {
        assert(s.buf + line.subrange(q, q) == s.buf);
    }
}

/// A join of several pieces is the first piece, the separator, and the join
/// of the others.
pub proof fn lemma_join_front(pieces: Seq<Seq<char>>, sep: Seq<char>)
    requires
        pieces.len() >= 2,
    ensures
        crate::text::join_with(pieces, sep) == pieces[0] + sep + crate::text::join_with(
            pieces.drop_first(),
            sep,
        ),
    decreases pieces.len(),
{
    let t = pieces.drop_last();
    if pieces.len() > 2 {
        lemma_join_front(t, sep);
        let d = pieces.drop_first();
        assert(t.drop_first() == d.drop_last());
        assert(d.last() == pieces.last());
        assert(t[0] == pieces[0]);
        assert(crate::text::join_with(d, sep) == crate::text::join_with(t.drop_first(), sep) + sep
            + pieces.last());
        assert(crate::text::join_with(pieces, sep) == crate::text::join_with(t, sep) + sep
            + pieces.last());
        assert(pieces[0] + sep + crate::text::join_with(t.drop_first(), sep) + sep + pieces.last()
            == pieces[0] + sep + (crate::text::join_with(t.drop_first(), sep) + sep + pieces.last()));
    } else {
        assert(pieces.drop_first() == seq![pieces[1]]);
        assert(t == seq![pieces[0]]);
        assert(crate::text::join_with(t, sep) == pieces[0]);
        assert(crate::text::join_with(pieces.drop_first(), sep) == pieces[1]);
    }
}

/// A text of whitespace only (possibly none).
pub open spec fn is_blank(w: Seq<char>) -> bool {
    forall|i: int| 0 <= i < w.len() ==> is_white_space(#[trigger] w[i])
}

/// Between words, whitespace is passed over.
proof fn lemma_blank_stretch(line: Seq<char>, s: Scan, q: int)
    requires
        s.state == CommandParseState::DropSection,
        0 <= s.pos <= q <= line.len(),
        forall|i: int| s.pos <= i < q ==> is_white_space(#[trigger] line[i]),
    ensures
        run(line, s) == run(line, Scan { pos: q, state: s.state, buf: s.buf, parts: s.parts }),
    decreases q - s.pos,
{
    if s.pos < q {
        lemma_run_step(line, s);
        assert(is_white_space(line[s.pos]));
        assert(step(line, s) == advance(s, 1));
        lemma_blank_stretch(line, advance(s, 1), q);
    }
}

/// From between words at `k`, a rest of the line made of plain words, each
/// two separated by `sep` and the last followed by `trail`, all of them
/// whitespace, adds exactly those words.
proof fn lemma_words_from(
    line: Seq<char>,
    k: int,
    words: Seq<Seq<char>>,
    sep: Seq<char>,
    trail: Seq<char>,
    parts: Seq<Seq<char>>,
)
    requires
        0 <= k <= line.len(),
        line.skip(k) == crate::text::join_with(words, sep) + trail,
        forall|i: int| 0 <= i < words.len() ==> is_plain_word(#[trigger] words[i]),
        sep.len() > 0,
        is_blank(sep),
        is_blank(trail),
    ensures
        finish(
            run(
                line,
                Scan {
                    pos: k,
                    state: CommandParseState::DropSection,
                    buf: Seq::empty(),
                    parts: parts,
                },
            ),
        ) == parts + words,
    decreases words.len(),
{
    let s = Scan { pos: k, state: CommandParseState::DropSection, buf: Seq::empty(), parts: parts };
    let n = line.len() as int;
    if words.len() == 0 {
        assert(line.skip(k) == trail);
        assert forall|i: int| k <= i < n implies is_white_space(#[trigger] line[i]) by {
            assert(line[i] == line.skip(k)[i - k]);
        }
        lemma_blank_stretch(line, s, n);
        assert(parts + words == parts);
    } else {
        let w = words[0];
        assert(is_plain_word(w));
        let end = k + w.len();
        let rest = if words.len() >= 2 {
            lemma_join_front(words, sep);
            sep + crate::text::join_with(words.drop_first(), sep) + trail
        } else {
            trail
        };
        assert(line.skip(k) == w + rest);
        assert(end <= n);
        assert forall|i: int| k <= i < end implies #[trigger] line[i] == w[i - k] by {
            assert(line[i] == line.skip(k)[i - k]);
            assert((w + rest)[i - k] == w[i - k]);
        }
        assert forall|i: int| k <= i < end implies is_plain(#[trigger] line[i]) by {
            assert(line[i] == w[i - k]);
        }
        assert(line.skip(end) == rest) by {
            assert forall|i: int| 0 <= i < rest.len() implies #[trigger] line.skip(end)[i] == rest[i] by {
                assert(line.skip(end)[i] == line.skip(k)[i + w.len()]);
                assert((w + rest)[i + w.len()] == rest[i]);
            }
        }
        assert(is_plain(line[k]));
        lemma_run_step(line, s);
        let t = step(line, s);
        assert(t == Scan {
            pos: k + 1,
            state: CommandParseState::WordSection,
            buf: seq![line[k]],
            parts: parts,
        });
        lemma_plain_stretch(line, t, end);
        assert(seq![line[k]] + line.subrange(k + 1, end) =~= w);
        let u = Scan { pos: end, state: CommandParseState::WordSection, buf: w, parts: parts };
        if end == n {
            assert(parts + words == parts.push(w)) by {
                if words.len() >= 2 {
                    assert(rest.len() >= sep.len());
                }
                assert(words == seq![w]);
            }
        } else {
            assert(rest.len() > 0);
            assert(is_white_space(rest[0])) by {
                if words.len() >= 2 {
                    assert(rest[0] == sep[0]);
                }
            }
            assert(line[end] == rest[0]);
            lemma_run_step(line, u);
            let v = step(line, u);
            assert(v == Scan {
                pos: end + 1,
                state: CommandParseState::DropSection,
                buf: Seq::empty(),
                parts: parts.push(w),
            });
            if words.len() >= 2 {
                let m = end + sep.len();
                assert forall|i: int| end + 1 <= i < m implies is_white_space(#[trigger] line[i]) by {
                    assert(line[i] == rest[i - end]);
                    assert(rest[i - end] == sep[i - end]);
                }
                lemma_blank_stretch(line, v, m);
                assert(line.skip(m) == crate::text::join_with(words.drop_first(), sep) + trail) by {
                    let r2 = crate::text::join_with(words.drop_first(), sep) + trail;
                    assert(rest == sep + r2);
                    assert forall|i: int| 0 <= i < r2.len() implies #[trigger] line.skip(m)[i] == r2[i] by {
                        assert(line.skip(m)[i] == line.skip(end)[i + sep.len()]);
                    }
                }
                assert forall|i: int| 0 <= i < words.drop_first().len() implies is_plain_word(
                    #[trigger] words.drop_first()[i],
                ) by {
                    assert(words.drop_first()[i] == words[i + 1]);
                }
                lemma_words_from(line, m, words.drop_first(), sep, trail, parts.push(w));
                assert(parts.push(w) + words.drop_first() == parts + words);
            } else {
                assert forall|i: int| end + 1 <= i < n implies is_white_space(#[trigger] line[i]) by {
                    assert(line[i] == rest[i - end]);
                }
                lemma_blank_stretch(line, v, n);
                assert(words == seq![w]);
                assert(parts + words == parts.push(w));
            }
        }
    }
}

/// Plain words separated by single spaces split back into those words.
pub proof fn law_plain_words_round_trip(words: Seq<Seq<char>>)
    requires
        forall|i: int| 0 <= i < words.len() ==> is_plain_word(#[trigger] words[i]),
    ensures
        split_words(crate::text::join_with(words, " "@)) == words,
{
    reveal_strlit(" ");
    assert(is_blank(" "@));
    law_words_between_blanks(Seq::empty(), words, " "@, Seq::empty());
    assert(Seq::<char>::empty() + crate::text::join_with(words, " "@) + Seq::<char>::empty()
        == crate::text::join_with(words, " "@));
}

/// Whitespace only separates words: plain words with any whitespace between
/// them (at least one character), before the first and after the last, split
/// back into those words.
pub proof fn law_words_between_blanks(
    lead: Seq<char>,
    words: Seq<Seq<char>>,
    sep: Seq<char>,
    trail: Seq<char>,
)
    requires
        forall|i: int| 0 <= i < words.len() ==> is_plain_word(#[trigger] words[i]),
        is_blank(lead),
        sep.len() > 0,
        is_blank(sep),
        is_blank(trail),
    ensures
        split_words(lead + crate::text::join_with(words, sep) + trail) == words,
{
    let line = lead + crate::text::join_with(words, sep) + trail;
    let k = lead.len() as int;
    assert forall|i: int| 0 <= i < k implies is_white_space(#[trigger] line[i]) by {
        assert(line[i] == lead[i]);
    }
    lemma_blank_stretch(line, initial_scan(), k);
    assert(line.skip(k) == crate::text::join_with(words, sep) + trail);
    lemma_words_from(line, k, words, sep, trail, Seq::empty());
    assert(Seq::<Seq<char>>::empty() + words == words);
}

} // verus!

verus! {

/// Inside single quotes, characters up to the next quote join the word as
/// they are.
proof fn lemma_single_quoted_stretch(line: Seq<char>, s: Scan, q: int)
    requires
        s.state == CommandParseState::SingleQuoteSection,
        0 <= s.pos <= q <= line.len(),
        forall|i: int| s.pos <= i < q ==> #[trigger] line[i] != '\'',
    ensures
        run(line, s) == run(
            line,
            Scan {
                pos: q,
                state: CommandParseState::SingleQuoteSection,
                buf: s.buf + line.subrange(s.pos, q),
                parts: s.parts,
            },
        ),
    decreases q - s.pos,
{
    if s.pos < q {
        lemma_run_step(line, s);
        let t = step(line, s);
        assert(line[s.pos] != '\'');
        assert(t == Scan {
            pos: s.pos + 1,
            state: CommandParseState::SingleQuoteSection,
            buf: s.buf.push(line[s.pos]),
            parts: s.parts,
        });
        lemma_single_quoted_stretch(line, t, q);
        assert(s.buf.push(line[s.pos]) + line.subrange(s.pos + 1, q) == s.buf + line.subrange(
            s.pos,
            q,
        ));
    } else {
        assert(s.buf + line.subrange(q, q) == s.buf);
    }
}

/// A line that is one single-quoted text, without a quote inside, is one word:
/// that text exactly, spaces, backslashes and double quotes included.
pub proof fn law_single_quotes_are_literal(t: Seq<char>)
    requires
        !t.contains('\''),
    ensures
        split_words("'"@ + t + "'"@) == seq![t],
{
    reveal_strlit("'");
    let line = "'"@ + t + "'"@;
    let n = line.len();
    assert(line[0] == '\'');
    assert(line[n - 1] == '\'');
    let s0 = initial_scan();
    lemma_run_step(line, s0);
    let s1 = step(line, s0);
    assert(s1 == Scan {
        pos: 1,
        state: CommandParseState::SingleQuoteSection,
        buf: Seq::empty(),
        parts: Seq::empty(),
    });
    assert forall|i: int| 1 <= i < n - 1 implies #[trigger] line[i] != '\'' by {
        assert(line[i] == t[i - 1]);
    }
    lemma_single_quoted_stretch(line, s1, n - 1);
    assert(Seq::<char>::empty() + line.subrange(1, n - 1) == t);
    let s2 = Scan {
        pos: n - 1,
        state: CommandParseState::SingleQuoteSection,
        buf: t,
        parts: Seq::empty(),
    };
    lemma_run_step(line, s2);
    let s3 = step(line, s2);
    assert(s3 == Scan {
        pos: n as int,
        state: CommandParseState::DropSection,
        buf: Seq::empty(),
        parts: seq![t],
    });
}

} // verus!

verus! {

/// Inside double quotes, characters up to the next double quote join the
/// word as they are, as long as none of them is a backslash.
proof fn lemma_double_quoted_stretch(line: Seq<char>, s: Scan, q: int)
    requires
        s.state == CommandParseState::DoubleQuoteSection,
        0 <= s.pos <= q <= line.len(),
        forall|i: int| s.pos <= i < q ==> #[trigger] line[i] != '"' && line[i] != '\\',
    ensures
        run(line, s) == run(
            line,
            Scan {
                pos: q,
                state: CommandParseState::DoubleQuoteSection,
                buf: s.buf + line.subrange(s.pos, q),
                parts: s.parts,
            },
        ),
    decreases q - s.pos,
{
    if s.pos < q {
        lemma_run_step(line, s);
        let t = step(line, s);
        assert(line[s.pos] != '"' && line[s.pos] != '\\');
        assert(t == Scan {
            pos: s.pos + 1,
            state: CommandParseState::DoubleQuoteSection,
            buf: s.buf.push(line[s.pos]),
            parts: s.parts,
        });
        lemma_double_quoted_stretch(line, t, q);
        assert(s.buf.push(line[s.pos]) + line.subrange(s.pos + 1, q) == s.buf + line.subrange(
            s.pos,
            q,
        ));
    } else {
        assert(s.buf + line.subrange(q, q) == s.buf);
    }
}

/// A text that a quote may hold as it is: no quote of its own kind, and
/// inside double quotes no backslash.
pub open spec fn literal_in_quotes(t: Seq<char>, quote: char) -> bool {
    &&& !t.contains(quote)
    &&& quote == '"' ==> !t.contains('\\')
}

/// The section that a quote character opens.
pub open spec fn quote_section(quote: char) -> CommandParseState {
    if quote == '"' {
        CommandParseState::DoubleQuoteSection
    } else {
        CommandParseState::SingleQuoteSection
    }
}

/// Inside a quote, a literal text under the scanner joins the word as it is.
proof fn lemma_quoted_literal(line: Seq<char>, s: Scan, t: Seq<char>, quote: char)
    requires
        quote == '"' || quote == '\'',
        s.state == quote_section(quote),
        literal_in_quotes(t, quote),
        0 <= s.pos,
        s.pos + t.len() <= line.len(),
        line.subrange(s.pos, s.pos + t.len()) == t,
    ensures
        run(line, s) == run(
            line,
            Scan { pos: s.pos + t.len(), state: s.state, buf: s.buf + t, parts: s.parts },
        ),
{
    let e = s.pos + t.len();
    assert forall|i: int| s.pos <= i < e implies #[trigger] line[i] == t[i - s.pos] by {
        assert(line.subrange(s.pos, e)[i - s.pos] == line[i]);
    }
    if quote == '"' {
        assert forall|i: int| s.pos <= i < e implies #[trigger] line[i] != '"' && line[i] != '\\' by {
            assert(line[i] == t[i - s.pos]);
            assert(t.contains(line[i]));
        }
        lemma_double_quoted_stretch(line, s, e);
    } else {
        assert forall|i: int| s.pos <= i < e implies #[trigger] line[i] != '\'' by {
            assert(line[i] == t[i - s.pos]);
            assert(t.contains(line[i]));
        }
        lemma_single_quoted_stretch(line, s, e);
    }
}

/// Inside a quote whose rest of the line is a literal text and the closing
/// quote, the word so far followed by that text is the last word.
proof fn lemma_quoted_to_end(line: Seq<char>, s: Scan, t: Seq<char>, quote: char)
    requires
        quote == '"' || quote == '\'',
        s.state == quote_section(quote),
        literal_in_quotes(t, quote),
        0 <= s.pos <= line.len(),
        line.skip(s.pos) == t.push(quote),
    ensures
        finish(run(line, s)) == s.parts.push(s.buf + t),
{
    let n = line.len();
    let e = s.pos + t.len();
    assert(e + 1 == n) by {
        assert(line.skip(s.pos).len() == t.len() + 1);
    }
    assert(line[e] == quote) by {
        assert(line.skip(s.pos)[t.len() as int] == quote);
    }
    assert(line.subrange(s.pos, e) == t) by {
        assert forall|i: int| 0 <= i < t.len() implies #[trigger] line.subrange(s.pos, e)[i] == t[i] by {
            assert(line.skip(s.pos)[i] == line[s.pos + i]);
        }
    }
    lemma_quoted_literal(line, s, t, quote);
    let u = Scan { pos: e, state: s.state, buf: s.buf + t, parts: s.parts };
    lemma_run_step(line, u);
    let v = step(line, u);
    assert(v == Scan {
        pos: n as int,
        state: CommandParseState::DropSection,
        buf: Seq::empty(),
        parts: s.parts.push(s.buf + t),
    });
}

/// A line that is one double-quoted text, without a double quote or a
/// backslash inside, is one word: that text exactly, spaces and single quotes
/// included.
pub proof fn law_double_quotes_are_literal(t: Seq<char>)
    requires
        !t.contains('"'),
        !t.contains('\\'),
    ensures
        split_words("\""@ + t + "\""@) == seq![t],
{
    reveal_strlit("\"");
    let line = "\""@ + t + "\""@;
    assert(line[0] == '"');
    let s0 = initial_scan();
    lemma_run_step(line, s0);
    let s1 = step(line, s0);
    assert(s1 == Scan {
        pos: 1,
        state: CommandParseState::DoubleQuoteSection,
        buf: Seq::empty(),
        parts: Seq::empty(),
    });
    assert(line.skip(1) == t.push('"'));
    lemma_quoted_to_end(line, s1, t, '"');
    assert(Seq::<char>::empty() + t == t);
    assert(Seq::<Seq<char>>::empty().push(t) == seq![t]);
}

/// A quoted part that directly follows a plain word joins that word: the
/// line is one word, the plain characters followed by the quoted text.
pub proof fn law_quote_joins_word(w: Seq<char>, t: Seq<char>, quote: char)
    requires
        is_plain_word(w),
        quote == '"' || quote == '\'',
        literal_in_quotes(t, quote),
    ensures
        split_words(w + seq![quote] + t + seq![quote]) == seq![w + t],
{
    let line = w + seq![quote] + t + seq![quote];
    let k = w.len() as int;
    assert forall|i: int| 0 <= i < k implies #[trigger] line[i] == w[i] by {}
    assert(is_plain(line[0])) by {
        assert(line[0] == w[0]);
    }
    let s0 = initial_scan();
    lemma_run_step(line, s0);
    let s1 = step(line, s0);
    assert(s1 == Scan {
        pos: 1,
        state: CommandParseState::WordSection,
        buf: seq![line[0]],
        parts: Seq::empty(),
    });
    assert forall|i: int| 1 <= i < k implies is_plain(#[trigger] line[i]) by {
        assert(line[i] == w[i]);
    }
    lemma_plain_stretch(line, s1, k);
    assert(seq![line[0]] + line.subrange(1, k) == w);
    let s2 = Scan { pos: k, state: CommandParseState::WordSection, buf: w, parts: Seq::empty() };
    assert(line[k] == quote);
    lemma_run_step(line, s2);
    let s3 = step(line, s2);
    assert(s3 == Scan { pos: k + 1, state: quote_section(quote), buf: w, parts: Seq::empty() });
    assert(line.skip(k + 1) == t.push(quote));
    lemma_quoted_to_end(line, s3, t, quote);
    assert(Seq::<Seq<char>>::empty().push(w + t) == seq![w + t]);
}

} // verus!

verus! {

/// An output redirection operator is `>` or `>>`, either bare or behind the
/// stream's number: `1` (standard output, as bare) or `2` (standard error).
/// The doubled form appends, the single one truncates.
pub proof fn law_redirect_operators(number: Seq<char>, append: bool)
    requires
        number == ""@ || number == "1"@ || number == "2"@,
    ensures
        redirect_op(number + if append { ">>"@ } else { ">"@ }) == Some((number == "2"@, append)),
{
    reveal_strlit("");
    reveal_strlit("1");
    reveal_strlit("2");
    reveal_strlit(">");
    reveal_strlit(">>");
    reveal_strlit("1>");
    reveal_strlit("1>>");
    reveal_strlit("2>");
    reveal_strlit("2>>");
    let w = number + if append { ">>"@ } else { ">"@ };
    assert("1"@[0] != "2"@[0]);
    assert(">"@[0] != "1"@[0] && ">"@[0] != "2"@[0]);
    assert(">>"@[0] != "1>"@[0] && ">>"@[0] != "2>"@[0]);
    assert("1>"@[0] != "2>"@[0]);
    assert("1>>"@[0] != "2>>"@[0]);
    if number == ""@ {
        if append {
            assert(w =~= ">>"@);
        } else {
            assert(w =~= ">"@);
        }
    } else if number == "1"@ {
        if append {
            assert(w =~= "1>>"@);
        } else {
            assert(w =~= "1>"@);
        }
    } else {
        if append {
            assert(w =~= "2>>"@);
        } else {
            assert(w =~= "2>"@);
        }
    }
}

/// What a redirection operator says can be read off its text: it ends in
/// `>`; it redirects standard error exactly when it starts with `2`, and it
/// appends exactly when it ends in `>>`.
pub proof fn law_redirect_op_shape(w: Seq<char>)
    requires
        redirect_op(w) is Some,
    ensures
        w.len() >= 1 && w.last() == '>',
        ({
            let (to_stderr, append) = redirect_op(w)->0;
            &&& to_stderr <==> w[0] == '2'
            &&& append <==> (w.len() >= 2 && w[w.len() - 2] == '>')
        }),
{
    reveal_strlit(">");
    reveal_strlit(">>");
    reveal_strlit("1>");
    reveal_strlit("1>>");
    reveal_strlit("2>");
    reveal_strlit("2>>");
}

/// A line of plain words that ends in a redirection operator and a file is
/// the command of the words before it, with that file as the redirection of
/// the stream that the operator names: standard error for `2`, standard
/// output otherwise, appended to for `>>` and truncated for `>`.
pub proof fn law_redirected_line(
    name: Seq<char>,
    args: Seq<Seq<char>>,
    number: Seq<char>,
    append: bool,
    file: Seq<char>,
)
    requires
        is_plain_word(name),
        forall|i: int| 0 <= i < args.len() ==> is_plain_word(#[trigger] args[i]),
        forall|i: int| 0 <= i < args.len() ==> redirect_op(#[trigger] args[i]) is None,
        number == ""@ || number == "1"@ || number == "2"@,
        is_plain_word(file),
    ensures
        ({
            let op = number + if append { ">>"@ } else { ">"@ };
            let r = Some(RedirectView { filename: file, is_append: append });
            parse_line(crate::text::join_with(seq![name] + args + seq![op, file], " "@))
                == CommandLine {
                name: name,
                args: args,
                stdout_redirect: if number == "2"@ { None } else { r },
                stderr_redirect: if number == "2"@ { r } else { None },
            }
        }),
{
    reveal_strlit("");
    reveal_strlit("1");
    reveal_strlit("2");
    reveal_strlit(">");
    reveal_strlit(">>");
    let op = number + if append { ">>"@ } else { ">"@ };
    assert(is_plain('>') && is_plain('1') && is_plain('2'));
    assert(is_plain_word(op)) by {
        assert forall|i: int| 0 <= i < op.len() implies is_plain(#[trigger] op[i]) by {
            if i < number.len() {
                assert(op[i] == number[i]);
            } else {
                assert(op[i] == '>');
            }
        }
    }
    let all = seq![name] + args + seq![op, file];
    assert forall|i: int| 0 <= i < all.len() implies is_plain_word(#[trigger] all[i]) by {
        if i == 0 {
            assert(all[i] == name);
        } else if i <= args.len() {
            assert(all[i] == args[i - 1]);
        } else if i == args.len() + 1 {
            assert(all[i] == op);
        } else {
            assert(all[i] == file);
        }
    }
    law_plain_words_round_trip(all);
    law_redirect_operators(number, append);
    law_trailing_redirect(args, op, file);
    assert(all.skip(1) == args + seq![op, file]);
    assert(all[0] == name);
}

/// Words without operators in front of other words stay in front of what
/// the others give.
proof fn lemma_strip_after_plain(args: Seq<Seq<char>>, rest: Seq<Seq<char>>)
    requires
        forall|i: int| 0 <= i < args.len() ==> redirect_op(#[trigger] args[i]) is None,
    ensures
        strip_redirects(args + rest) == (
            args + strip_redirects(rest).0,
            strip_redirects(rest).1,
            strip_redirects(rest).2,
        ),
    decreases args.len(),
{
    let all = args + rest;
    if args.len() == 0 {
        assert(all == rest);
        assert(args + strip_redirects(rest).0 == strip_redirects(rest).0);
    } else if all.len() < 2 {
        assert(rest.len() == 0);
        assert(all == args);
        assert(args + Seq::<Seq<char>>::empty() == args);
    } else {
        let t = args.skip(1);
        assert forall|i: int| 0 <= i < t.len() implies redirect_op(#[trigger] t[i]) is None by {
            assert(t[i] == args[i + 1]);
        }
        lemma_strip_after_plain(t, rest);
        assert(all.skip(1) == t + rest);
        assert(all[0] == args[0]);
        assert(redirect_op(args[0]) is None);
        assert(seq![args[0]] + (t + strip_redirects(rest).0) == args + strip_redirects(rest).0);
    }
}

/// Of two redirections of one stream the later one counts; a redirection of
/// the other stream is kept beside it.
pub proof fn law_later_redirect_wins(
    args: Seq<Seq<char>>,
    op1: Seq<char>,
    file1: Seq<char>,
    op2: Seq<char>,
    file2: Seq<char>,
)
    requires
        forall|i: int| 0 <= i < args.len() ==> redirect_op(#[trigger] args[i]) is None,
        redirect_op(op1) is Some,
        redirect_op(op2) is Some,
    ensures
        ({
            let (err1, append1) = redirect_op(op1)->0;
            let (err2, append2) = redirect_op(op2)->0;
            let r1 = Some(RedirectView { filename: file1, is_append: append1 });
            let r2 = Some(RedirectView { filename: file2, is_append: append2 });
            let out = if !err2 { r2 } else if !err1 { r1 } else { None };
            let err = if err2 { r2 } else if err1 { r1 } else { None };
            strip_redirects(args + seq![op1, file1, op2, file2]) == (args, out, err)
        }),
{
    let rest = seq![op1, file1, op2, file2];
    lemma_strip_after_plain(args, rest);
    assert(rest.skip(2) == seq![op2, file2]);
    assert(seq![op2, file2].skip(2) == Seq::<Seq<char>>::empty());
    assert(strip_redirects(Seq::<Seq<char>>::empty()) == (Seq::<Seq<char>>::empty(), None::<RedirectView>, None::<RedirectView>));
    let (err1, append1) = redirect_op(op1)->0;
    let (err2, append2) = redirect_op(op2)->0;
    let r1 = Some(RedirectView { filename: file1, is_append: append1 });
    let r2 = Some(RedirectView { filename: file2, is_append: append2 });
    let tail = seq![op2, file2];
    assert(tail[0] == op2 && tail[1] == file2);
    assert(strip_redirects(tail) == (
        Seq::<Seq<char>>::empty(),
        if err2 { None } else { r2 },
        if err2 { r2 } else { None },
    ));
    assert(rest[0] == op1 && rest[1] == file1);
    assert(strip_redirects(rest) == (
        Seq::<Seq<char>>::empty(),
        if err1 { later_redirect(None, strip_redirects(tail).1) } else { later_redirect(r1, strip_redirects(tail).1) },
        if err1 { later_redirect(r1, strip_redirects(tail).2) } else { later_redirect(None, strip_redirects(tail).2) },
    ));
    assert(args + Seq::<Seq<char>>::empty() == args);
}

/// A redirection operator with no word after it is no redirection: it stays
/// a word.
pub proof fn law_operator_at_end_is_a_word(args: Seq<Seq<char>>, op: Seq<char>)
    requires
        forall|i: int| 0 <= i < args.len() ==> redirect_op(#[trigger] args[i]) is None,
    ensures
        strip_redirects(args.push(op)) == (args.push(op), None::<RedirectView>, None::<RedirectView>),
{
    lemma_strip_after_plain(args, seq![op]);
    assert(args + seq![op] == args.push(op));
}

/// Words without redirection operators stay as they are, with no redirection.
pub proof fn law_no_operators_no_redirects(args: Seq<Seq<char>>)
    requires
        forall|i: int| 0 <= i < args.len() ==> redirect_op(#[trigger] args[i]) is None,
    ensures
        strip_redirects(args) == (args, None::<RedirectView>, None::<RedirectView>),
    decreases args.len(),
{
    if args.len() >= 2 {
        let t = args.skip(1);
        assert forall|i: int| 0 <= i < t.len() implies redirect_op(#[trigger] t[i]) is None by {
            assert(t[i] == args[i + 1]);
        }
        law_no_operators_no_redirects(t);
        assert(redirect_op(args[0]) is None);
        assert(seq![args[0]] + t == args);
    }
}

/// A redirection written after words that hold no operator takes its file
/// from the word after it, and the words before it stay as they are.
pub proof fn law_trailing_redirect(args: Seq<Seq<char>>, op: Seq<char>, file: Seq<char>)
    requires
        forall|i: int| 0 <= i < args.len() ==> redirect_op(#[trigger] args[i]) is None,
        redirect_op(op) is Some,
    ensures
        ({
            let (to_stderr, append) = redirect_op(op)->0;
            let r = Some(RedirectView { filename: file, is_append: append });
            strip_redirects(args + seq![op, file]) == if to_stderr {
                (args, None, r)
            } else {
                (args, r, None)
            }
        }),
    decreases args.len(),
{
    let all = args + seq![op, file];
    if args.len() == 0 {
        assert(all == seq![op, file]);
        assert(all.skip(2) == Seq::<Seq<char>>::empty());
        assert(all[0] == op && all[1] == file);
        assert(strip_redirects(all.skip(2)) == (Seq::<Seq<char>>::empty(), None::<RedirectView>, None::<RedirectView>));
        assert(args == Seq::<Seq<char>>::empty());
    } else {
        let t = args.skip(1);
        assert forall|i: int| 0 <= i < t.len() implies redirect_op(#[trigger] t[i]) is None by {
            assert(t[i] == args[i + 1]);
        }
        law_trailing_redirect(t, op, file);
        assert(all.skip(1) == t + seq![op, file]);
        assert(all[0] == args[0]);
        assert(redirect_op(args[0]) is None);
        assert(seq![args[0]] + t == args);
        assert(all.len() >= 2);
        assert(strip_redirects(all) == (seq![args[0]] + strip_redirects(t + seq![op, file]).0,
            strip_redirects(t + seq![op, file]).1, strip_redirects(t + seq![op, file]).2));
    }
}

} // verus!

verus! {

/// One step of the scanner keeps the words done, or adds the current word.
proof fn lemma_step_parts(line: Seq<char>, s: Scan)
    requires
        0 <= s.pos < line.len(),
    ensures
        step(line, s).parts == s.parts || step(line, s).parts == s.parts.push(s.buf),
{
}

/// The scanner never takes back a word it has finished.
proof fn lemma_run_keeps_parts(line: Seq<char>, s: Scan)
    ensures
        run(line, s).parts.len() >= s.parts.len(),
        run(line, s).parts.take(s.parts.len() as int) == s.parts,
        finish(run(line, s)).len() >= s.parts.len(),
        finish(run(line, s)).take(s.parts.len() as int) == s.parts,
    decreases line.len() + 1 - s.pos,
{
    if 0 <= s.pos < line.len() {
        let t = step(line, s);
        lemma_step_parts(line, s);
        lemma_run_keeps_parts(line, t);
        let r = run(line, t);
        assert(r.parts.take(t.parts.len() as int).take(s.parts.len() as int) == r.parts.take(
            s.parts.len() as int,
        ));
        assert(t.parts.take(s.parts.len() as int) == s.parts);
        let f = finish(r);
        assert(f.take(t.parts.len() as int).take(s.parts.len() as int) == f.take(
            s.parts.len() as int,
        ));
    } else {
        assert(s.parts.take(s.parts.len() as int) == s.parts);
        assert(s.parts.push(s.buf).take(s.parts.len() as int) == s.parts);
    }
}

/// A line without quotes or backslashes.
pub open spec fn unquoted(line: Seq<char>) -> bool {
    forall|i: int| 0 <= i < line.len() ==> #[trigger] line[i] != '\'' && line[i] != '"' && line[i]
        != '\\'
}

/// Inside an unquoted word on an unquoted line, the word finished next is
/// the word so far followed by the characters up to the next whitespace.
proof fn lemma_word_from(line: Seq<char>, s: Scan)
    requires
        unquoted(line),
        0 <= s.pos <= line.len(),
        s.state == CommandParseState::WordSection,
    ensures
        finish(run(line, s)).len() > s.parts.len(),
        finish(run(line, s))[s.parts.len() as int] == s.buf + crate::text::leading_word(
            line.skip(s.pos),
        ),
    decreases line.len() - s.pos,
{
    let rest = line.skip(s.pos);
    if s.pos == line.len() {
        assert(rest.len() == 0);
        assert(s.buf + Seq::<char>::empty() == s.buf);
    } else {
        lemma_run_step(line, s);
        let c = line[s.pos];
        assert(rest[0] == c);
        let t = step(line, s);
        if is_white_space(c) {
            assert(t == Scan {
                pos: s.pos + 1,
                state: CommandParseState::DropSection,
                buf: Seq::empty(),
                parts: s.parts.push(s.buf),
            });
            lemma_run_keeps_parts(line, t);
            let f = finish(run(line, t));
            assert(f.take(t.parts.len() as int)[s.parts.len() as int] == s.buf);
            assert(s.buf + Seq::<char>::empty() == s.buf);
        } else {
            assert(c != '\'' && c != '"' && c != '\\');
            assert(t == Scan {
                pos: s.pos + 1,
                state: CommandParseState::WordSection,
                buf: s.buf.push(c),
                parts: s.parts,
            });
            lemma_word_from(line, t);
            assert(rest.drop_first() == line.skip(s.pos + 1));
            assert(s.buf.push(c) + crate::text::leading_word(line.skip(s.pos + 1)) == s.buf + (seq![c]
                + crate::text::leading_word(line.skip(s.pos + 1))));
        }
    }
}

/// Between words on an unquoted line, the next word finished is the first
/// whitespace-separated word of the rest of the line, and there is none when
/// the rest is whitespace.
proof fn lemma_first_word_from(line: Seq<char>, s: Scan)
    requires
        unquoted(line),
        0 <= s.pos <= line.len(),
        s.state == CommandParseState::DropSection,
        s.buf == Seq::<char>::empty(),
    ensures
        crate::text::first_word(line.skip(s.pos)).len() == 0 ==> finish(run(line, s)) == s.parts,
        crate::text::first_word(line.skip(s.pos)).len() > 0 ==> {
            &&& finish(run(line, s)).len() > s.parts.len()
            &&& finish(run(line, s))[s.parts.len() as int] == crate::text::first_word(
                line.skip(s.pos),
            )
        },
    decreases line.len() - s.pos,
{
    let rest = line.skip(s.pos);
    if s.pos == line.len() {
        assert(rest.len() == 0);
    } else {
        lemma_run_step(line, s);
        let c = line[s.pos];
        assert(rest[0] == c);
        assert(rest.drop_first() == line.skip(s.pos + 1));
        let t = step(line, s);
        if is_white_space(c) {
            assert(t == advance(s, 1));
            lemma_first_word_from(line, t);
        } else {
            assert(c != '\'' && c != '"' && c != '\\');
            assert(t == Scan {
                pos: s.pos + 1,
                state: CommandParseState::WordSection,
                buf: Seq::<char>::empty().push(c),
                parts: s.parts,
            });
            assert(Seq::<char>::empty().push(c) == seq![c]);
            lemma_word_from(line, t);
            assert(crate::text::trim_start_of(rest) == rest);
            assert(crate::text::leading_word(rest) == seq![c] + crate::text::leading_word(
                line.skip(s.pos + 1),
            ));
        }
    }
}

/// On a line without quotes or backslashes, the first word that the scanner
/// gives is the line's first whitespace-separated word, and it gives none
/// when the line is whitespace.
pub proof fn law_unquoted_first_word(line: Seq<char>)
    requires
        unquoted(line),
    ensures
        crate::text::first_word(line).len() == 0 ==> split_words(line).len() == 0,
        crate::text::first_word(line).len() > 0 ==> split_words(line).len() > 0 && split_words(
            line,
        )[0] == crate::text::first_word(line),
{
    assert(line.skip(0) == line);
    lemma_first_word_from(line, initial_scan());
}

} // verus!

verus! {

/// Inside an unquoted word, a rest of the line made of plain characters
/// finishes the word with them.
proof fn lemma_plain_to_end(line: Seq<char>, s: Scan)
    requires
        s.state == CommandParseState::WordSection,
        0 <= s.pos <= line.len(),
        forall|i: int| s.pos <= i < line.len() ==> is_plain(#[trigger] line[i]),
    ensures
        finish(run(line, s)) == s.parts.push(s.buf + line.skip(s.pos)),
{
    lemma_plain_stretch(line, s, line.len() as int);
    assert(line.subrange(s.pos, line.len() as int) == line.skip(s.pos));
}

/// Outside quotes a backslash makes the character after it an ordinary
/// character of the word, whatever it is (whitespace, a quote, a backslash),
/// and is itself dropped.
pub proof fn law_backslash_escapes(a: Seq<char>, c: char, b: Seq<char>)
    requires
        forall|i: int| 0 <= i < a.len() ==> is_plain(#[trigger] a[i]),
        forall|i: int| 0 <= i < b.len() ==> is_plain(#[trigger] b[i]),
    ensures
        split_words(a + seq!['\\', c] + b) == seq![a + seq![c] + b],
{
    let line = a + seq!['\\', c] + b;
    let k = a.len() as int;
    assert(line[k] == '\\' && line[k + 1] == c);
    assert forall|i: int| k + 2 <= i < line.len() implies is_plain(#[trigger] line[i]) by {
        assert(line[i] == b[i - k - 2]);
    }
    assert(line.skip(k + 2) == b);
    let s0 = initial_scan();
    lemma_run_step(line, s0);
    let s1 = step(line, s0);
    if k == 0 {
        assert(s1 == Scan {
            pos: 2,
            state: CommandParseState::WordSection,
            buf: seq![c],
            parts: Seq::empty(),
        });
        lemma_plain_to_end(line, s1);
        assert(a + seq![c] + b == seq![c] + b);
    } else {
        assert(line[0] == a[0]);
        assert(s1 == Scan {
            pos: 1,
            state: CommandParseState::WordSection,
            buf: seq![line[0]],
            parts: Seq::empty(),
        });
        assert forall|i: int| 1 <= i < k implies is_plain(#[trigger] line[i]) by {
            assert(line[i] == a[i]);
        }
        lemma_plain_stretch(line, s1, k);
        assert(seq![line[0]] + line.subrange(1, k) == a);
        let s2 = Scan { pos: k, state: CommandParseState::WordSection, buf: a, parts: Seq::empty() };
        lemma_run_step(line, s2);
        let s3 = step(line, s2);
        assert(s3 == Scan {
            pos: k + 2,
            state: CommandParseState::WordSection,
            buf: a.push(c),
            parts: Seq::empty(),
        });
        lemma_plain_to_end(line, s3);
        assert(a.push(c) + b == a + seq![c] + b);
    }
    assert(Seq::<Seq<char>>::empty().push(a + seq![c] + b) == seq![a + seq![c] + b]);
}

/// Inside double quotes a backslash escapes only a double quote, a dollar
/// sign, a backquote, a backslash or a newline: the character after it is
/// then taken alone; before any other character the backslash is kept.
pub proof fn law_backslash_in_double_quotes(t1: Seq<char>, c: char, t2: Seq<char>)
    requires
        literal_in_quotes(t1, '"'),
        literal_in_quotes(t2, '"'),
    ensures
        split_words(seq!['"'] + t1 + seq!['\\', c] + t2 + seq!['"']) == seq![
            t1 + (if c == '"' || c == '$' || c == '`' || c == '\\' || c == '\n' {
                seq![c]
            } else {
                seq!['\\', c]
            }) + t2,
        ],
{
    let line = seq!['"'] + t1 + seq!['\\', c] + t2 + seq!['"'];
    let k = t1.len() + 1int;
    let escaped = c == '"' || c == '$' || c == '`' || c == '\\' || c == '\n';
    assert(line[0] == '"');
    assert(line[k] == '\\' && line[k + 1] == c);
    let s0 = initial_scan();
    lemma_run_step(line, s0);
    let s1 = step(line, s0);
    assert(s1 == Scan {
        pos: 1,
        state: CommandParseState::DoubleQuoteSection,
        buf: Seq::empty(),
        parts: Seq::empty(),
    });
    assert(line.subrange(1, k) == t1);
    lemma_quoted_literal(line, s1, t1, '"');
    assert(Seq::<char>::empty() + t1 == t1);
    let s2 = Scan { pos: k, state: CommandParseState::DoubleQuoteSection, buf: t1, parts: Seq::empty() };
    lemma_run_step(line, s2);
    let s3 = step(line, s2);
    assert(line.skip(k + 2) == t2.push('"'));
    if escaped {
        assert(is_dq_escapable(line[k + 1]));
        assert(s3 == Scan {
            pos: k + 2,
            state: CommandParseState::DoubleQuoteSection,
            buf: t1.push(c),
            parts: Seq::empty(),
        });
        lemma_quoted_to_end(line, s3, t2, '"');
        assert(t1.push(c) + t2 == t1 + seq![c] + t2);
    } else {
        assert(!is_dq_escapable(line[k + 1]));
        assert(s3 == Scan {
            pos: k + 1,
            state: CommandParseState::DoubleQuoteSection,
            buf: t1.push('\\'),
            parts: Seq::empty(),
        });
        lemma_run_step(line, s3);
        let s4 = step(line, s3);
        assert(s4 == Scan {
            pos: k + 2,
            state: CommandParseState::DoubleQuoteSection,
            buf: t1.push('\\').push(c),
            parts: Seq::empty(),
        });
        lemma_quoted_to_end(line, s4, t2, '"');
        assert(t1.push('\\').push(c) + t2 == t1 + seq!['\\', c] + t2);
    }
}

/// Two quoted parts with nothing between them make one word: the first
/// text followed by the second, whichever quotes each is in.
pub proof fn law_adjacent_quotes_join(t1: Seq<char>, q1: char, t2: Seq<char>, q2: char)
    requires
        q1 == '"' || q1 == '\'',
        q2 == '"' || q2 == '\'',
        literal_in_quotes(t1, q1),
        literal_in_quotes(t2, q2),
    ensures
        split_words(seq![q1] + t1 + seq![q1, q2] + t2 + seq![q2]) == seq![t1 + t2],
{
    let line = seq![q1] + t1 + seq![q1, q2] + t2 + seq![q2];
    let e = t1.len() + 1int;
    assert(line[0] == q1 && line[e] == q1 && line[e + 1] == q2);
    assert(!is_white_space(q2));
    let s0 = initial_scan();
    lemma_run_step(line, s0);
    let s1 = step(line, s0);
    assert(s1 == Scan { pos: 1, state: quote_section(q1), buf: Seq::empty(), parts: Seq::empty() });
    assert(line.subrange(1, e) == t1);
    lemma_quoted_literal(line, s1, t1, q1);
    assert(Seq::<char>::empty() + t1 == t1);
    let s2 = Scan { pos: e, state: quote_section(q1), buf: t1, parts: Seq::empty() };
    lemma_run_step(line, s2);
    let s3 = step(line, s2);
    assert(s3 == Scan { pos: e + 2, state: quote_section(q2), buf: t1, parts: Seq::empty() });
    assert(line.skip(e + 2) == t2.push(q2));
    lemma_quoted_to_end(line, s3, t2, q2);
}

/// Plain characters that directly follow a closing quote join the quoted
/// word.
pub proof fn law_quote_then_plain(t: Seq<char>, quote: char, w: Seq<char>)
    requires
        quote == '"' || quote == '\'',
        literal_in_quotes(t, quote),
        is_plain_word(w),
    ensures
        split_words(seq![quote] + t + seq![quote] + w) == seq![t + w],
{
    let line = seq![quote] + t + seq![quote] + w;
    let e = t.len() + 1int;
    assert(line[0] == quote && line[e] == quote && line[e + 1] == w[0]);
    assert(is_plain(w[0]));
    let s0 = initial_scan();
    lemma_run_step(line, s0);
    let s1 = step(line, s0);
    assert(s1 == Scan { pos: 1, state: quote_section(quote), buf: Seq::empty(), parts: Seq::empty() });
    assert(line.subrange(1, e) == t);
    lemma_quoted_literal(line, s1, t, quote);
    assert(Seq::<char>::empty() + t == t);
    let s2 = Scan { pos: e, state: quote_section(quote), buf: t, parts: Seq::empty() };
    lemma_run_step(line, s2);
    let s3 = step(line, s2);
    assert(s3 == Scan {
        pos: e + 1,
        state: CommandParseState::WordSection,
        buf: t,
        parts: Seq::empty(),
    });
    assert(line.skip(e + 1) == w);
    assert forall|i: int| e + 1 <= i < line.len() implies is_plain(#[trigger] line[i]) by {
        assert(line[i] == w[i - e - 1]);
    }
    lemma_plain_to_end(line, s3);
    assert(Seq::<Seq<char>>::empty().push(t + w) == seq![t + w]);
}

/// Whitespace after a closing quote ends the quoted word: a quoted text,
/// whitespace and a plain word are two words.
pub proof fn law_quoted_then_word(t: Seq<char>, quote: char, sep: Seq<char>, w: Seq<char>)
    requires
        quote == '"' || quote == '\'',
        literal_in_quotes(t, quote),
        sep.len() > 0,
        is_blank(sep),
        is_plain_word(w),
    ensures
        split_words(seq![quote] + t + seq![quote] + sep + w) == seq![t, w],
{
    let line = seq![quote] + t + seq![quote] + sep + w;
    let e = t.len() + 1int;
    let m = e + 1 + sep.len();
    assert(line[0] == quote && line[e] == quote && line[e + 1] == sep[0]);
    let s0 = initial_scan();
    lemma_run_step(line, s0);
    let s1 = step(line, s0);
    assert(s1 == Scan { pos: 1, state: quote_section(quote), buf: Seq::empty(), parts: Seq::empty() });
    assert(line.subrange(1, e) == t);
    lemma_quoted_literal(line, s1, t, quote);
    assert(Seq::<char>::empty() + t == t);
    let s2 = Scan { pos: e, state: quote_section(quote), buf: t, parts: Seq::empty() };
    lemma_run_step(line, s2);
    let s3 = step(line, s2);
    assert(s3 == Scan {
        pos: e + 1,
        state: CommandParseState::DropSection,
        buf: Seq::empty(),
        parts: seq![t],
    });
    assert forall|i: int| e + 1 <= i < m implies is_white_space(#[trigger] line[i]) by {
        assert(line[i] == sep[i - e - 1]);
    }
    lemma_blank_stretch(line, s3, m);
    assert(line.skip(m) == w);
    assert(crate::text::join_with(seq![w], sep) == w);
    assert(w + Seq::<char>::empty() == w);
    assert(is_blank(Seq::<char>::empty()));
    assert forall|i: int| 0 <= i < seq![w].len() implies is_plain_word(#[trigger] seq![w][i]) by {}
    lemma_words_from(line, m, seq![w], sep, Seq::empty(), seq![t]);
    assert(seq![t] + seq![w] == seq![t, w]);
}

/// Whitespace before an opening quote starts a new word: a plain word,
/// whitespace and a quoted text are two words.
pub proof fn law_word_then_quoted(w: Seq<char>, sep: Seq<char>, quote: char, t: Seq<char>)
    requires
        is_plain_word(w),
        sep.len() > 0,
        is_blank(sep),
        quote == '"' || quote == '\'',
        literal_in_quotes(t, quote),
    ensures
        split_words(w + sep + seq![quote] + t + seq![quote]) == seq![w, t],
{
    let line = w + sep + seq![quote] + t + seq![quote];
    let k = w.len() as int;
    let m = k + sep.len();
    assert forall|i: int| 0 <= i < k implies #[trigger] line[i] == w[i] by {}
    assert(is_plain(line[0])) by {
        assert(line[0] == w[0]);
    }
    let s0 = initial_scan();
    lemma_run_step(line, s0);
    let s1 = step(line, s0);
    assert(s1 == Scan {
        pos: 1,
        state: CommandParseState::WordSection,
        buf: seq![line[0]],
        parts: Seq::empty(),
    });
    assert forall|i: int| 1 <= i < k implies is_plain(#[trigger] line[i]) by {
        assert(line[i] == w[i]);
    }
    lemma_plain_stretch(line, s1, k);
    assert(seq![line[0]] + line.subrange(1, k) == w);
    let s2 = Scan { pos: k, state: CommandParseState::WordSection, buf: w, parts: Seq::empty() };
    assert(line[k] == sep[0]);
    lemma_run_step(line, s2);
    let s3 = step(line, s2);
    assert(s3 == Scan {
        pos: k + 1,
        state: CommandParseState::DropSection,
        buf: Seq::empty(),
        parts: seq![w],
    });
    assert forall|i: int| k + 1 <= i < m implies is_white_space(#[trigger] line[i]) by {
        assert(line[i] == sep[i - k]);
    }
    lemma_blank_stretch(line, s3, m);
    let s4 = Scan { pos: m, state: CommandParseState::DropSection, buf: Seq::empty(), parts: seq![w] };
    assert(line[m] == quote);
    lemma_run_step(line, s4);
    let s5 = step(line, s4);
    assert(s5 == Scan { pos: m + 1, state: quote_section(quote), buf: Seq::empty(), parts: seq![w] });
    assert(line.skip(m + 1) == t.push(quote));
    lemma_quoted_to_end(line, s5, t, quote);
    assert(Seq::<char>::empty() + t == t);
    assert(seq![w].push(t) == seq![w, t]);
}

} // verus!
