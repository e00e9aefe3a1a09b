//! Tab completion: the names of executables, the candidates offered for a
//! line, and the texts around them.

use vstd::prelude::*;

use vstd::string::StringSliceAdditionalSpecFns;
use vstd::utf8::encode_utf8;

use crate::common::{
    ascii_tail, completion_args, last_index_of, parse_completion_args_from_line,
    shell_builtin_commands, shell_builtin_names, split_line_defined,
    split_line_to_prefix_and_last_completion, split_offset,
};
use crate::completion_specs::CompletionSpecs;
use crate::text::{
    chars_of, contains_char, has_prefix, split_char, split_on, starts_with, text_eq, trim, trim_of,
};

verus! {

/// `a` comes before `b` in the order of `String`: character by character by
/// code point, a proper prefix first. (UTF-8 keeps code-point order, so this
/// is also the order of the bytes.)
pub open spec fn text_lt(a: Seq<char>, b: Seq<char>) -> bool
    decreases a.len(),
{
    if a.len() == 0 {
        b.len() > 0
    } else if b.len() == 0 {
        false
    } else if a[0] != b[0] {
        a[0] < b[0]
    } else {
        text_lt(a.drop_first(), b.drop_first())
    }
}

/// The order is strict and total: exactly one of `a < b`, `a == b`, `b < a`.
pub proof fn lemma_text_lt_total(a: Seq<char>, b: Seq<char>)
    ensures
        !(text_lt(a, b) && text_lt(b, a)),
        text_lt(a, b) || text_lt(b, a) || a == b,
        !text_lt(a, a),
    decreases a.len(),
{
    if a.len() > 0 && b.len() > 0 {
        lemma_text_lt_total(a.drop_first(), b.drop_first());
        lemma_text_lt_total(a.drop_first(), a.drop_first());
        if a[0] == b[0] && a.drop_first() == b.drop_first() {
            assert(a == seq![a[0]] + a.drop_first());
            assert(b == seq![b[0]] + b.drop_first());
        }
    } else if a.len() > 0 {
        lemma_text_lt_total(a.drop_first(), a.drop_first());
    }
}

/// The order is transitive.
pub proof fn lemma_text_lt_trans(a: Seq<char>, b: Seq<char>, c: Seq<char>)
    requires
        text_lt(a, b),
        text_lt(b, c),
    ensures
        text_lt(a, c),
    decreases a.len(),
{
    if a.len() > 0 && b.len() > 0 && c.len() > 0 && a[0] == b[0] && b[0] == c[0] {
        lemma_text_lt_trans(a.drop_first(), b.drop_first(), c.drop_first());
    }
}

/// Whether `a` comes before `b`, as [`text_lt`] says.
pub fn text_less(a: &str, b: &str) -> (r: bool)
    ensures
        r == text_lt(a@, b@),
{
    let x = chars_of(a);
    let y = chars_of(b);
    let mut i: usize = 0;
    assert(x@.skip(0) == x@ && y@.skip(0) == y@);
    loop
        invariant
            i <= x.len(),
            i <= y.len(),
            x@ == a@,
            y@ == b@,
            text_lt(a@, b@) == text_lt(x@.skip(i as int), y@.skip(i as int)),
        decreases x.len() - i,
    {
        let ghost xs = x@.skip(i as int);
        let ghost ys = y@.skip(i as int);
        if i == x.len() {
            return i < y.len();
        }
        if i == y.len() {
            return false;
        }
        assert(xs[0] == x@[i as int] && ys[0] == y@[i as int]);
        if x[i] != y[i] {
            return x[i] < y[i];
        }
        assert(xs.drop_first() == x@.skip(i + 1) && ys.drop_first() == y@.skip(i + 1));
        i = i + 1;
    }
}

/// Each name comes before the next.
pub open spec fn strictly_sorted(s: Seq<Seq<char>>) -> bool {
    forall|i: int, j: int| 0 <= i < j < s.len() ==> text_lt(#[trigger] s[i], #[trigger] s[j])
}

/// The names of the programs that completion offers: a set of names kept in
/// the order of [`text_lt`].
pub struct ExecutableNames {
    names: Vec<String>,
}

impl View for ExecutableNames {
    type V = Seq<Seq<char>>;

    closed spec fn view(&self) -> Seq<Seq<char>> {
        self.names.deep_view()
    }
}

impl ExecutableNames {
    /// The names are in order, each once.
    pub open spec fn wf(&self) -> bool {
        strictly_sorted(self@)
    }

    /// No names.
    pub fn empty() -> (r: Self)
        ensures
            r.wf(),
            r@ == Seq::<Seq<char>>::empty(),
    {
        let r = ExecutableNames { names: Vec::new() };
        assert(r@ == Seq::<Seq<char>>::empty());
        r
    }

    /// Adds `name`, keeping the order; a name already there stays once.
    pub fn insert(&mut self, name: String)
        requires
            old(self).wf(),
        ensures
            final(self).wf(),
            final(self)@.to_set() == old(self)@.to_set().insert(name@),
    {
        let ghost s = self@;
        let mut p: usize = 0;
        while p < self.names.len() && text_less(self.names[p].as_str(), name.as_str())
            invariant
                p <= self.names.len(),
                self@ == s,
                strictly_sorted(s),
                forall|k: int| 0 <= k < p ==> text_lt(#[trigger] s[k], name@),
            decreases self.names.len() - p,
        {
            p = p + 1;
        }
        if p < self.names.len() && text_eq(self.names[p].as_str(), name.as_str()) {
            assert(s.to_set().insert(name@) =~= s.to_set()) by {
                assert(s[p as int] == name@);
                assert(s.contains(name@));
            }
            return;
        }
        proof {
            if p < s.len() {
                lemma_text_lt_total(s[p as int], name@);
            }
        }
        self.names.insert(p, name);
        let ghost t = self@;
        assert(t == s.insert(p as int, name@));
        assert(strictly_sorted(t)) by {
            assert forall|i: int, j: int| 0 <= i < j < t.len() implies text_lt(
                #[trigger] t[i],
                #[trigger] t[j],
            ) by {
                if j < p {
                    assert(t[i] == s[i] && t[j] == s[j]);
                } else if j == p {
                    assert(t[i] == s[i]);
                } else if i == p {
                    assert(t[j] == s[j - 1]);
                    if j - 1 > p {
                        lemma_text_lt_trans(name@, s[p as int], s[j - 1]);
                    }
                } else if i < p {
                    assert(t[i] == s[i] && t[j] == s[j - 1]);
                } else {
                    assert(t[i] == s[i - 1] && t[j] == s[j - 1]);
                }
            }
        }
        assert(t.to_set() =~= s.to_set().insert(name@)) by {
            assert forall|x: Seq<char>| t.to_set().contains(x) <==> s.to_set().insert(name@).contains(
                x,
            ) by {
                if t.contains(x) {
                    let k = choose|k: int| 0 <= k < t.len() && t[k] == x;
                    if k < p {
                        assert(s[k] == x);
                    } else if k > p {
                        assert(s[k - 1] == x);
                    }
                }
                if s.contains(x) {
                    let k = choose|k: int| 0 <= k < s.len() && s[k] == x;
                    if k < p {
                        assert(t[k] == x);
                    } else {
                        assert(t[k + 1] == x);
                    }
                }
                if x == name@ {
                    assert(t[p as int] == x);
                }
            }
        }
    }

    /// The names that completion offers first: the builtins and the programs
    /// found on the search path.
    pub fn new(env_path_executable_names: Vec<String>) -> (r: Self)
        ensures
            r.wf(),
            r@.to_set() == shell_builtin_commands().to_set() + env_path_executable_names.deep_view().to_set(),
    {
        let mut names = ExecutableNames::empty();
        let builtins = shell_builtin_names();
        let ghost b = builtins.deep_view();
        let ghost env = env_path_executable_names.deep_view();
        let mut i: usize = 0;
        assert(names@.to_set() =~= b.take(0).to_set());
        while i < builtins.len()
            invariant
                i <= builtins.len(),
                b == builtins.deep_view(),
                names.wf(),
                names@.to_set() == b.take(i as int).to_set(),
            decreases builtins.len() - i,
        {
            names.insert(builtins[i].clone());
            assert(b.take(i + 1) == b.take(i as int).push(b[i as int]));
            assert(b.take(i + 1).to_set() =~= b.take(i as int).to_set().insert(b[i as int])) by {
                b.take(i as int).lemma_push_to_set_commute(b[i as int]);
            }
            i = i + 1;
        }
        assert(b.take(b.len() as int) == b);
        let mut j: usize = 0;
        assert(env.take(0).to_set() =~= Set::<Seq<char>>::empty());
        while j < env_path_executable_names.len()
            invariant
                j <= env_path_executable_names.len(),
                env == env_path_executable_names.deep_view(),
                b == shell_builtin_commands(),
                names.wf(),
                names@.to_set() == b.to_set() + env.take(j as int).to_set(),
            decreases env_path_executable_names.len() - j,
        {
            names.insert(env_path_executable_names[j].clone());
            assert(env.take(j + 1) == env.take(j as int).push(env[j as int]));
            assert(env.take(j + 1).to_set() =~= env.take(j as int).to_set().insert(env[j as int]))
                by {
                env.take(j as int).lemma_push_to_set_commute(env[j as int]);
            }
            assert(names@.to_set() =~= b.to_set() + env.take(j + 1).to_set());
            j = j + 1;
        }
        assert(env.take(env.len() as int) == env);
        names
    }
}

} // verus!

verus! {

/// A completion offered: what the list shows and what replaces the line.
pub struct Candidate {
    pub display: String,
    pub replacement: String,
}

/// The model of a [`Candidate`]: `(display, replacement)`.
pub open spec fn candidate_view(c: Candidate) -> (Seq<char>, Seq<char>) {
    (c.display@, c.replacement@)
}

/// The models of candidates.
pub open spec fn candidates_view(v: Seq<Candidate>) -> Seq<(Seq<char>, Seq<char>)> {
    v.map_values(|c: Candidate| candidate_view(c))
}

/// The candidates for a first word: each name that begins with the line, in
/// order, shown as it is and completed with a space after it.
pub open spec fn name_candidates(names: Seq<Seq<char>>, line: Seq<char>) -> Seq<
    (Seq<char>, Seq<char>),
>
    decreases names.len(),
{
    if names.len() == 0 {
        Seq::empty()
    } else {
        let rest = name_candidates(names.drop_last(), line);
        if has_prefix(names.last(), line) {
            rest.push((names.last(), names.last() + " "@))
        } else {
            rest
        }
    }
}

/// The candidates for a word that a completion script gave: each option,
/// shown as it is, replacing the line with the line before its last word, a
/// space, the option and a space.
pub open spec fn script_candidates(prefix: Seq<char>, options: Seq<Seq<char>>) -> Seq<
    (Seq<char>, Seq<char>),
> {
    options.map_values(|o: Seq<char>| (o, prefix + " "@ + o + " "@))
}

impl ExecutableNames {
    /// The names that begin with `line`, as candidates, as [`name_candidates`] says.
    pub fn candidates(&self, line: &str) -> (r: Vec<Candidate>)
        ensures
            candidates_view(r@) == name_candidates(self@, line@),
    {
        let ghost names = self@;
        let mut r: Vec<Candidate> = Vec::new();
        let mut i: usize = 0;
        assert(names.take(0) == Seq::<Seq<char>>::empty());
        assert(candidates_view(r@) == Seq::<(Seq<char>, Seq<char>)>::empty());
        while i < self.names.len()
            invariant
                i <= self.names.len(),
                names == self@,
                candidates_view(r@) == name_candidates(names.take(i as int), line@),
            decreases self.names.len() - i,
        {
            let name = &self.names[i];
            assert(names.take(i + 1).drop_last() == names.take(i as int));
            assert(names.take(i + 1).last() == name@);
            if starts_with(name.as_str(), line) {
                let mut replacement = name.clone();
                replacement.append(" ");
                let ghost before = candidates_view(r@);
                r.push(Candidate { display: name.clone(), replacement });
                assert(candidates_view(r@) == before.push((name@, name@ + " "@)));
            }
            i = i + 1;
        }
        assert(names.take(names.len() as int) == names);
        r
    }
}

/// The candidates made of what a completion script printed, as
/// [`script_candidates`] says.
pub fn script_candidates_for(prefix: &str, options: &Vec<String>) -> (r: Vec<Candidate>)
    ensures
        candidates_view(r@) == script_candidates(prefix@, options.deep_view()),
{
    let mut r: Vec<Candidate> = Vec::new();
    let mut i: usize = 0;
    while i < options.len()
        invariant
            i <= options.len(),
            candidates_view(r@) == script_candidates(prefix@, options.deep_view().take(i as int)),
        decreases options.len() - i,
    {
        let mut replacement = prefix.to_owned();
        replacement.append(" ");
        replacement.append(options[i].as_str());
        replacement.append(" ");
        let ghost before = candidates_view(r@);
        r.push(Candidate { display: options[i].clone(), replacement });
        assert(candidates_view(r@) == before.push((options[i as int]@, prefix@ + " "@ + options[i as int]@ + " "@)));
        assert(options.deep_view().take(i + 1) == options.deep_view().take(i as int).push(options[i as int]@));
        i = i + 1;
    }
    assert(options.deep_view().take(options.len() as int) == options.deep_view());
    r
}

/// The lines of `s` as `str::lines` gives them, each without the whitespace
/// at either end: the pieces between newlines, the empty piece after a final
/// newline left out.
pub open spec fn option_lines(s: Seq<char>) -> Seq<Seq<char>> {
    let pieces = split_on(s, '\n');
    let lines = if pieces.last().len() == 0 {
        pieces.drop_last()
    } else {
        pieces
    };
    lines.map_values(|l: Seq<char>| trim_of(l))
}

/// The options that a completion script printed, as [`option_lines`] says.
pub fn completion_options(stdout: &str) -> (r: Vec<String>)
    ensures
        r.deep_view() == option_lines(stdout@),
{
    let pieces = split_char(stdout, '\n');
    proof {
        crate::text::lemma_split_on_nonempty(stdout@, '\n');
    }
    let ghost p = pieces.deep_view();
    let n = if chars_of(pieces[pieces.len() - 1].as_str()).len() == 0 {
        pieces.len() - 1
    } else {
        pieces.len()
    };
    let mut r: Vec<String> = Vec::new();
    let mut i: usize = 0;
    while i < n
        invariant
            i <= n <= pieces.len(),
            p == pieces.deep_view(),
            n == (if p.last().len() == 0 { p.len() - 1 } else { p.len() as int }),
            r.deep_view() == p.take(n as int).take(i as int).map_values(|l: Seq<char>| trim_of(l)),
        decreases n - i,
    {
        let ghost before = r.deep_view();
        r.push(trim(pieces[i].as_str()));
        assert(r.deep_view() == before.push(trim_of(p[i as int])));
        assert(p.take(n as int).take(i + 1) == p.take(n as int).take(i as int).push(p[i as int]));
        i = i + 1;
    }
    assert(p.take(n as int).take(n as int) == (if p.last().len() == 0 { p.drop_last() } else { p }));
    r
}

/// The text that completion puts for a file: a directory keeps its path as
/// it is, anything else gets a space after it.
pub open spec fn path_ending(path: Seq<char>) -> Seq<char> {
    if path.len() > 0 && path.last() == '/' {
        path
    } else {
        path + " "@
    }
}

/// A completed path followed by a space, unless it ends with `/`.
pub fn fix_path_ending(path: &str) -> (r: String)
    ensures
        r@ == path_ending(path@),
{
    let chars = chars_of(path);
    if chars.len() > 0 && chars[chars.len() - 1] == '/' {
        path.to_owned()
    } else {
        let mut r = path.to_owned();
        r.append(" ");
        r
    }
}

/// A path as the completion list shows it: with a `/` after it if it names a
/// directory (`is_dir`, which the caller finds out).
pub fn fix_path_display(path: &str, is_dir: bool) -> (r: String)
    ensures
        r@ == (if is_dir { path@ + "/"@ } else { path@ }),
{
    let mut r = path.to_owned();
    if is_dir {
        r.append("/");
    }
    r
}

/// How a line is completed.
pub enum CompletionRequest {
    /// Run `script` with the three words of
    /// [`crate::common::parse_completion_args_from_line`], and offer what it
    /// prints through [`script_candidates_for`] with `prefix`.
    Script { script: String, args: [String; 3], prefix: String },
    /// Offer the files that match the last word.
    Filenames,
    /// Offer the executable names that begin with the line.
    Executables,
}

/// How a line is completed: a line with a space completes its last word,
/// with the completion script of its command if it has one and with file
/// names otherwise; a line without a space completes a program's name. The
/// prefix is the line cut as [`split_line_to_prefix_and_last_completion`] cuts it.
pub fn completion_request(line: &str, specs: &CompletionSpecs) -> (r: CompletionRequest)
    requires
        specs.wf(),
        line@.contains(' ') ==> split_line_defined(line),
    ensures
        match r {
            CompletionRequest::Script { script, args, prefix } => {
                &&& line@.contains(' ')
                &&& args.deep_view() == completion_args(line@)
                &&& specs@.contains_key(completion_args(line@)[0])
                &&& script@ == specs@[completion_args(line@)[0]]
                &&& encode_utf8(prefix@) == line.spec_bytes().subrange(0, split_offset(line) - 1)
                &&& ascii_tail(line@) ==> prefix@ == line@.take(last_index_of(line@, ' '))
            },
            CompletionRequest::Filenames => line@.contains(' ') && !specs@.contains_key(
                completion_args(line@)[0],
            ),
            CompletionRequest::Executables => !line@.contains(' '),
        },
{
    if contains_char(line, ' ') {
        let (prefix, _) = split_line_to_prefix_and_last_completion(line);
        let args = parse_completion_args_from_line(line);
        match specs.get(args[0].as_str()) {
            Some(script) => CompletionRequest::Script { script, args, prefix: prefix.to_owned() },
            None => CompletionRequest::Filenames,
        }
    } else {
        CompletionRequest::Executables
    }
}

} // verus!

verus! {

/// Every candidate offered for a first word is a known name that begins with
/// the line, completed with a space.
pub proof fn law_name_candidates_match(names: Seq<Seq<char>>, line: Seq<char>)
    ensures
        forall|i: int|
            0 <= i < name_candidates(names, line).len() ==> {
                let c = #[trigger] name_candidates(names, line)[i];
                &&& names.contains(c.0)
                &&& has_prefix(c.0, line)
                &&& c.1 == c.0 + " "@
            },
    decreases names.len(),
{
    if names.len() > 0 {
        let t = names.drop_last();
        law_name_candidates_match(t, line);
        let r = name_candidates(names, line);
        let rt = name_candidates(t, line);
        assert forall|i: int| 0 <= i < r.len() implies {
            let c = #[trigger] r[i];
            &&& names.contains(c.0)
            &&& has_prefix(c.0, line)
            &&& c.1 == c.0 + " "@
        } by {
            if i < rt.len() {
                assert(r[i] == rt[i]);
                let k = choose|k: int| 0 <= k < t.len() && t[k] == rt[i].0;
                assert(names[k] == t[k]);
            } else {
                assert(names[names.len() - 1] == names.last());
            }
        }
    }
}

/// Every name that begins with the line is offered.
pub proof fn law_name_candidates_complete(names: Seq<Seq<char>>, line: Seq<char>, k: int)
    requires
        0 <= k < names.len(),
        has_prefix(names[k], line),
    ensures
        name_candidates(names, line).contains((names[k], names[k] + " "@)),
    decreases names.len(),
{
    let r = name_candidates(names, line);
    if k == names.len() - 1 {
        assert(r[r.len() - 1] == (names[k], names[k] + " "@));
    } else {
        let t = names.drop_last();
        assert(t[k] == names[k]);
        law_name_candidates_complete(t, line, k);
        let rt = name_candidates(t, line);
        let j = choose|j: int| 0 <= j < rt.len() && rt[j] == (names[k], names[k] + " "@);
        assert(r[j] == rt[j]);
    }
}

} // verus!

verus! {

/// A file name offered by the file name completer: what it shows, what it
/// puts, and whether the shown path is a directory.
pub struct FileMatch {
    pub display: String,
    pub replacement: String,
    pub is_dir: bool,
}

/// The candidates for file names: each shown with a `/` after it if it is a
/// directory, and put as [`path_ending`] says.
pub open spec fn file_candidates(matches: Seq<FileMatch>) -> Seq<(Seq<char>, Seq<char>)> {
    matches.map_values(
        |m: FileMatch|
            (
                if m.is_dir {
                    m.display@ + "/"@
                } else {
                    m.display@
                },
                path_ending(m.replacement@),
            ),
    )
}

/// The candidates made of the file names offered, as [`file_candidates`] says.
pub fn file_candidates_for(matches: &Vec<FileMatch>) -> (r: Vec<Candidate>)
    ensures
        candidates_view(r@) == file_candidates(matches@),
{
    let mut r: Vec<Candidate> = Vec::new();
    let mut i: usize = 0;
    while i < matches.len()
        invariant
            i <= matches.len(),
            candidates_view(r@) == file_candidates(matches@.take(i as int)),
        decreases matches.len() - i,
    {
        let m = &matches[i];
        let display = fix_path_display(m.display.as_str(), m.is_dir);
        let replacement = fix_path_ending(m.replacement.as_str());
        let ghost before = candidates_view(r@);
        r.push(Candidate { display, replacement });
        assert(matches@.take(i + 1) == matches@.take(i as int).push(matches@[i as int]));
        assert(candidates_view(r@) == before.push(file_candidates(matches@.take(i + 1))[i as int]));
        assert(candidates_view(r@) == file_candidates(matches@.take(i + 1)));
        i = i + 1;
    }
    assert(matches@.take(matches.len() as int) == matches@);
    r
}

} // verus!
