//! What the builtins do: the text they write, the change they make to the
//! aliases, and the request they leave to the caller when the answer needs
//! the operating system (the working directory, the search path, exiting).
use vstd::prelude::*;
use rustyline::history::FileHistory;
use crate::cmd::{builtin_named, Builtin, BuiltinType};
use crate::state::ShellState;
use crate::text::{
    decimal_digits, decimal_string, joined, join_strings, pad_left, pad_left_chars, parse_usize,
    parsed_usize, push_str, replace_char, replace_char_with, chars_of, string_views,
    string_from,
};

verus! {

/// The line editor's history, rustyline's `FileHistory`, declared so that
/// it can be passed through; nothing of its inside is visible here.
#[verifier::external_type_specification]
#[verifier::external_body]
pub struct ExFileHistory(FileHistory);

/// The entries that a rustyline history holds, oldest first.
pub uninterp spec fn history_entries(h: FileHistory) -> Seq<Seq<char>>;

/// Copies the entries out of a history with rustyline's `FileHistory::iter`
/// (each entry cloned). Claimed: the strings come in the order `iter` walks
/// the entries, oldest first, and are exactly the entries `history_entries`
/// names; nothing is said of how rustyline filled the history.
#[verifier::external_body]
fn history_snapshot(h: &FileHistory) -> (r: Vec<String>)
    ensures
        string_views(r@) == history_entries(*h),
{
    h.iter().cloned().collect()
}

/// The stream a builtin writes to.
#[derive(Clone, Copy, Debug, PartialEq, Eq, Structural)]
pub enum Stream {
    Stdout,
    Stderr,
}

/// A piece of text written to a stream.
#[derive(Debug)]
pub struct Output {
    pub stream: Stream,
    pub text: String,
}

/// What the caller has to do after a builtin ran.
#[derive(Debug)]
pub enum Request {
    /// Nothing.
    Nothing,
    /// Save the state and leave the shell.
    Exit,
    /// Make this path the working directory; on failure write
    /// `cd_failure_output` of it.
    ChangeDir(String),
    /// Write `pwd_output` of the working directory.
    PrintWorkingDir,
    /// Search the executable of this name on the search path and write
    /// `type_search_output` of what was found.
    LocateExecutable(String),
}

/// The change to make to the completion candidates.
#[derive(Debug)]
pub enum CompletionUpdate {
    Unchanged,
    Insert(String),
    Remove(String),
}

/// Everything a builtin produces: its writes in order, its request, and
/// its change to the completion candidates.
#[derive(Debug)]
pub struct Outcome {
    pub writes: Vec<Output>,
    pub request: Request,
    pub completion: CompletionUpdate,
}

/// The mathematical value of a `Request`.
pub enum RequestView {
    Nothing,
    Exit,
    ChangeDir(Seq<char>),
    PrintWorkingDir,
    LocateExecutable(Seq<char>),
}

/// The mathematical value of a `CompletionUpdate`.
pub enum CompletionView {
    Unchanged,
    Insert(Seq<char>),
    Remove(Seq<char>),
}

/// The mathematical value of an `Outcome`.
#[verifier::ext_equal]
pub struct OutcomeView {
    pub writes: Seq<(Stream, Seq<char>)>,
    pub request: RequestView,
    pub completion: CompletionView,
}

/// The view of an output.
pub open spec fn output_view(o: Output) -> (Stream, Seq<char>) {
    (o.stream, o.text@)
}

/// The view of an outcome.
pub open spec fn outcome_view(o: Outcome) -> OutcomeView {
    OutcomeView {
        writes: o.writes@.map_values(|w: Output| output_view(w)),
        request: match o.request {
            Request::Nothing => RequestView::Nothing,
            Request::Exit => RequestView::Exit,
            Request::ChangeDir(p) => RequestView::ChangeDir(p@),
            Request::PrintWorkingDir => RequestView::PrintWorkingDir,
            Request::LocateExecutable(n) => RequestView::LocateExecutable(n@),
        },
        completion: match o.completion {
            CompletionUpdate::Unchanged => CompletionView::Unchanged,
            CompletionUpdate::Insert(s) => CompletionView::Insert(s@),
            CompletionUpdate::Remove(s) => CompletionView::Remove(s@),
        },
    }
}

/// The path that `cd` goes to for argument `arg`: every `~` replaced by the
/// home directory.
pub open spec fn created_path(arg: Seq<char>, home: Seq<char>) -> Seq<char> {
    replace_char(arg, '~', home)
}

/// The first argument, if there is one.
pub open spec fn first_arg(args: Seq<Seq<char>>) -> Option<Seq<char>> {
    if args.len() > 0 {
        Some(args[0])
    } else {
        None
    }
}

/// How many history entries `history` shows: its argument as a number, or
/// all of them when there is no argument or it is not a number.
pub open spec fn history_count(args: Seq<Seq<char>>, len: nat) -> nat {
    match first_arg(args) {
        None => len,
        Some(c) => match parsed_usize(c) {
            Some(n) => n,
            None => len,
        },
    }
}

/// The line that shows entry `entry` as the `n`-th of a listing.
pub open spec fn history_line(n: nat, entry: Seq<char>) -> Seq<char> {
    pad_left(decimal_digits(n), 5) + seq![' ', ' '] + entry + seq!['\n']
}

/// The lines that `history` writes: the last `count` entries (all of them
/// if there are fewer), numbered from one.
pub open spec fn history_listing(entries: Seq<Seq<char>>, count: nat) -> Seq<Seq<char>> {
    let skip = if entries.len() > count {
        (entries.len() - count) as int
    } else {
        0
    };
    let shown = entries.skip(skip);
    Seq::new(shown.len(), |i: int| history_line((i + 1) as nat, shown[i]))
}

/// Writes of each line to standard output.
pub open spec fn stdout_writes(lines: Seq<Seq<char>>) -> Seq<(Stream, Seq<char>)> {
    lines.map_values(|l: Seq<char>| (Stream::Stdout, l))
}

/// An outcome that writes `text` to `stream` and requests nothing.
pub open spec fn write_only(stream: Stream, text: Seq<char>) -> OutcomeView {
    OutcomeView {
        writes: seq![(stream, text)],
        request: RequestView::Nothing,
        completion: CompletionView::Unchanged,
    }
}

/// An outcome with no writes.
pub open spec fn silent(request: RequestView, completion: CompletionView) -> OutcomeView {
    OutcomeView { writes: Seq::empty(), request: request, completion: completion }
}

/// What builtin `typ` with arguments `args` produces, given the aliases,
/// the history entries and the home directory.
pub open spec fn builtin_outcome(
    typ: BuiltinType,
    args: Seq<Seq<char>>,
    aliases: AliasEntriesMap,
    history: Seq<Seq<char>>,
    home: Seq<char>,
) -> OutcomeView {
    match typ {
        BuiltinType::Exit => silent(RequestView::Exit, CompletionView::Unchanged),
        BuiltinType::Echo => write_only(Stream::Stdout, joined(args, " "@) + seq!['\n']),
        BuiltinType::Pwd => silent(RequestView::PrintWorkingDir, CompletionView::Unchanged),
        BuiltinType::Cd => match first_arg(args) {
            Some(a) => silent(RequestView::ChangeDir(created_path(a, home)), CompletionView::Unchanged),
            None => write_only(
                Stream::Stderr,
                "Cd requires at least one argument. If more than one are provided all but the first are discarded.\n"@,
            ),
        },
        BuiltinType::Type => match first_arg(args) {
            Some(name) => if aliases.contains_key(name) {
                write_only(Stream::Stdout, name + " is a alias for "@ + aliases[name] + seq!['\n'])
            } else if builtin_named(name) is Some {
                write_only(Stream::Stdout, name + " is a shell builtin\n"@)
            } else {
                silent(RequestView::LocateExecutable(name), CompletionView::Unchanged)
            },
            None => write_only(
                Stream::Stderr,
                "Type requires at least one argument. If more than one are provided all but the first are discarded.\n"@,
            ),
        },
        BuiltinType::History => OutcomeView {
            writes: stdout_writes(history_listing(history, history_count(args, history.len()))),
            request: RequestView::Nothing,
            completion: CompletionView::Unchanged,
        },
        BuiltinType::Alias => if args.len() >= 2 {
            if args[0].contains('=') {
                write_only(Stream::Stderr, "Alias can't contain '='."@)
            } else {
                silent(RequestView::Nothing, CompletionView::Insert(args[0]))
            }
        } else {
            write_only(Stream::Stderr, "Alias requires at least two arguments.\n"@)
        },
        BuiltinType::Unalias => match first_arg(args) {
            Some(a) => silent(RequestView::Nothing, CompletionView::Remove(a)),
            None => write_only(Stream::Stderr, "Unalias requires one argument.\n"@),
        },
    }
}

/// The aliases after builtin `typ` with arguments `args` ran.
pub open spec fn aliases_after(typ: BuiltinType, args: Seq<Seq<char>>, aliases: AliasEntriesMap) -> AliasEntriesMap {
    match typ {
        BuiltinType::Alias => if args.len() >= 2 && !args[0].contains('=') {
            aliases.insert(args[0], args[1])
        } else {
            aliases
        },
        BuiltinType::Unalias => if args.len() >= 1 {
            aliases.remove(args[0])
        } else {
            aliases
        },
        _ => aliases,
    }
}

/// A map from alias names to their replacements.
pub type AliasEntriesMap = Map<Seq<char>, Seq<char>>;

/// What `pwd` writes for the working directory `cwd` (`None` when it cannot
/// be found).
pub open spec fn pwd_text(cwd: Option<Seq<char>>) -> (Stream, Seq<char>) {
    match cwd {
        Some(p) => (Stream::Stdout, p + seq!['\n']),
        None => (
            Stream::Stderr,
            "Current working directory either doesn't exist or you have insufficient privileges\n"@,
        ),
    }
}

/// What `type` writes for `name` when the search path was searched and
/// `found` was the result.
pub open spec fn type_search_text(name: Seq<char>, found: Option<Seq<char>>) -> Seq<char> {
    match found {
        Some(p) => p + seq!['\n'],
        None => name + ": not found\n"@,
    }
}

/// What `cd` writes when it cannot go to `path`.
pub open spec fn cd_failure_text(path: Seq<char>) -> Seq<char> {
    "cd: "@ + path + ": No such file or directory\n"@
}

/// A string of the literal `t`.
fn text_of(t: &str) -> (r: String)
    ensures
        r@ == t@,
{
    string_from(t)
}

fn output(stream: Stream, text: String) -> (r: Output)
    ensures
        output_view(r) == (stream, text@),
{
    Output { stream, text }
}

fn single_write(stream: Stream, text: String) -> (r: Outcome)
    ensures
        outcome_view(r) == write_only(stream, text@),
{
    let mut writes = Vec::new();
    writes.push(output(stream, text));
    let r = Outcome { writes, request: Request::Nothing, completion: CompletionUpdate::Unchanged };
    assert(outcome_view(r).writes =~= seq![(stream, text@)]);
    r
}

fn no_write(request: Request, completion: CompletionUpdate) -> (r: Outcome)
    ensures
        r.request == request,
        r.completion == completion,
        outcome_view(r).writes == Seq::<(Stream, Seq<char>)>::empty(),
{
    let r = Outcome { writes: Vec::new(), request, completion };
    assert(outcome_view(r).writes =~= Seq::<(Stream, Seq<char>)>::empty());
    r
}

/// Whether `s` holds the character `c`.
fn contains_char(s: &str, c: char) -> (r: bool)
    ensures
        r == s@.contains(c),
{
    let v = chars_of(s);
    let mut i: usize = 0;
    while i < v.len()
        invariant
            i <= v@.len(),
            v@ == s@,
            forall|j: int| 0 <= j < i ==> v@[j] != c,
        decreases v.len() - i,
    {
        if v[i] == c {
            assert(s@[i as int] == c);
            return true;
        }
        i = i + 1;
    }
    false
}

/// The path that `cd` goes to for `arg`, with every `~` replaced by `home`.
pub fn create_path(arg: &str, home: &str) -> (r: String)
    ensures
        r@ == created_path(arg@, home@),
{
    let a = chars_of(arg);
    let h = chars_of(home);
    let p = replace_char_with(&a, '~', &h);
    crate::text::string_from_chars(&p)
}

/// What `pwd` writes for the working directory `cwd`.
pub fn pwd_output(cwd: Option<String>) -> (r: Output)
    ensures
        output_view(r) == pwd_text(
            match cwd {
                Some(p) => Some(p@),
                None => None,
            },
        ),
{
    match cwd {
        Some(p) => {
            let mut t = p;
            t.push('\n');
            output(Stream::Stdout, t)
        },
        None => output(
            Stream::Stderr,
            text_of(
                "Current working directory either doesn't exist or you have insufficient privileges\n",
            ),
        ),
    }
}

/// What `type` writes for `name` after searching the search path found `found`.
pub fn type_search_output(name: &str, found: Option<String>) -> (r: Output)
    ensures
        output_view(r) == (Stream::Stdout, type_search_text(
            name@,
            match found {
                Some(p) => Some(p@),
                None => None,
            },
        )),
{
    match found {
        Some(p) => {
            let mut t = p;
            t.push('\n');
            output(Stream::Stdout, t)
        },
        None => {
            let mut t = string_from(name);
            push_str(&mut t, ": not found\n");
            output(Stream::Stdout, t)
        },
    }
}

/// What `cd` writes when it cannot go to `path`.
pub fn cd_failure_output(path: &str) -> (r: Output)
    ensures
        output_view(r) == (Stream::Stderr, cd_failure_text(path@)),
{
    let mut t = text_of("cd: ");
    push_str(&mut t, path);
    push_str(&mut t, ": No such file or directory\n");
    assert(t@ =~= cd_failure_text(path@));
    output(Stream::Stderr, t)
}

/// The history listing line for entry number `n`.
fn history_line_text(n: usize, entry: &String) -> (r: String)
    ensures
        r@ == history_line(n as nat, entry@),
{
    let digits = decimal_string(n);
    let padded = pad_left_chars(&digits, 5);
    let mut t = crate::text::string_from_chars(&padded);
    t.push(' ');
    t.push(' ');
    push_str(&mut t, entry.as_str());
    t.push('\n');
    assert(t@ =~= history_line(n as nat, entry@));
    t
}

impl Builtin {
    /// Runs the builtin on `state`: its writes, its request and its change
    /// to the completion candidates; `history` is the line editor's history
    /// and `home` the home directory.
    pub fn execute(&self, state: &mut ShellState, history: &FileHistory, home: &str) -> (r: Outcome)
        requires
            old(state).wf(),
        ensures
            final(state).wf(),
            outcome_view(r) == builtin_outcome(
                self@.0,
                self@.1,
                old(state).aliases@,
                history_entries(*history),
                home@,
            ),
            final(state).aliases@ == aliases_after(self@.0, self@.1, old(state).aliases@),
    {
        let args = self.args();
        let ghost a = self@.1;
        assert(a.len() == args@.len());
        proof {
            if args@.len() > 0 {
                assert(a[0] == args@[0]@);
            }
            if args@.len() > 1 {
                assert(a[1] == args@[1]@);
            }
        }
        let ghost target = builtin_outcome(self@.0, a, state.aliases@, history_entries(*history), home@);
        match self.typ() {
            BuiltinType::Exit => {
                let r = no_write(Request::Exit, CompletionUpdate::Unchanged);
                assert(outcome_view(r) =~= target);
                r
            },
            BuiltinType::Echo => {
                let mut out = join_strings(args, " ");
                out.push('\n');
                assert(out@ =~= joined(a, " "@) + seq!['\n']);
                let r = single_write(Stream::Stdout, out);
                assert(outcome_view(r) =~= target);
                r
            },
            BuiltinType::Pwd => {
                let r = no_write(Request::PrintWorkingDir, CompletionUpdate::Unchanged);
                assert(outcome_view(r) =~= target);
                r
            },
            BuiltinType::Cd => {
                if args.len() > 0 {
                    let path = create_path(args[0].as_str(), home);
                    no_write(Request::ChangeDir(path), CompletionUpdate::Unchanged)
                } else {
                    single_write(
                        Stream::Stderr,
                        text_of(
                            "Cd requires at least one argument. If more than one are provided all but the first are discarded.\n",
                        ),
                    )
                }
            },
            BuiltinType::Type => {
                if args.len() > 0 {
                    let name = &args[0];
                    proof {
                        state.aliases.lemma_wf();
                    }
                    match state.aliases.get(name.as_str()) {
                        Some(val) => {
                            let mut t = name.clone();
                            push_str(&mut t, " is a alias for ");
                            push_str(&mut t, val.as_str());
                            t.push('\n');
                            assert(t@ =~= name@ + " is a alias for "@ + val@ + seq!['\n']);
                            single_write(Stream::Stdout, t)
                        },
                        None => {
                            if crate::cmd::BuiltinType::from_str(name.as_str()).is_ok() {
                                let mut t = name.clone();
                                push_str(&mut t, " is a shell builtin\n");
                                assert(t@ =~= name@ + " is a shell builtin\n"@);
                                single_write(Stream::Stdout, t)
                            } else {
                                no_write(
                                    Request::LocateExecutable(name.clone()),
                                    CompletionUpdate::Unchanged,
                                )
                            }
                        },
                    }
                } else {
                    single_write(
                        Stream::Stderr,
                        text_of(
                            "Type requires at least one argument. If more than one are provided all but the first are discarded.\n",
                        ),
                    )
                }
            },
            BuiltinType::History => {
                let entries = history_snapshot(history);
                let ghost ev = string_views(entries@);
                let len = entries.len();
                let see: usize = if args.len() > 0 {
                    match parse_usize(args[0].as_str()) {
                        Some(n) => n,
                        None => len,
                    }
                } else {
                    len
                };
                assert(see == history_count(a, ev.len()));
                let skip: usize = if len > see {
                    len - see
                } else {
                    0
                };
                let ghost listing = history_listing(ev, see as nat);
                let mut writes: Vec<Output> = Vec::new();
                let mut i: usize = skip;
                while i < len
                    invariant
                        skip <= i <= len,
                        len == entries@.len(),
                        ev == string_views(entries@),
                        listing == history_listing(ev, see as nat),
                        skip == (if ev.len() > see { (ev.len() - see) as int } else { 0 }),
                        writes@.map_values(|w: Output| output_view(w)) == stdout_writes(
                            listing.take(i - skip),
                        ),
                    decreases len - i,
                {
                    let line = history_line_text(i - skip + 1, &entries[i]);
                    let ghost k = i - skip;
                    assert(line@ == listing[k]);
                    let ghost wbefore = writes@;
                    let o = output(Stream::Stdout, line);
                    writes.push(o);
                    assert(writes@ == wbefore.push(o));
                    assert(writes@.map_values(|w: Output| output_view(w)) =~= wbefore.map_values(
                        |w: Output| output_view(w),
                    ).push(output_view(o)));
                    assert(listing.take(k + 1) =~= listing.take(k).push(listing[k]));
                    assert(stdout_writes(listing.take(k + 1)) =~= stdout_writes(listing.take(k)).push(
                        (Stream::Stdout, listing[k]),
                    ));
                    i = i + 1;
                }
                assert(listing.take(len - skip) =~= listing);
                Outcome { writes, request: Request::Nothing, completion: CompletionUpdate::Unchanged }
            },
            BuiltinType::Alias => {
                if args.len() >= 2 {
                    let alias = &args[0];
                    if contains_char(alias.as_str(), '=') {
                        single_write(Stream::Stderr, text_of("Alias can't contain '='."))
                    } else {
                        state.aliases.insert(alias.clone(), args[1].clone());
                        no_write(Request::Nothing, CompletionUpdate::Insert(alias.clone()))
                    }
                } else {
                    single_write(
                        Stream::Stderr,
                        text_of("Alias requires at least two arguments.\n"),
                    )
                }
            },
            BuiltinType::Unalias => {
                if args.len() > 0 {
                    let alias = &args[0];
                    state.aliases.remove(alias.as_str());
                    no_write(Request::Nothing, CompletionUpdate::Remove(alias.clone()))
                } else {
                    single_write(Stream::Stderr, text_of("Unalias requires one argument.\n"))
                }
            },
        }
    }
}

/// After `alias name replacement` (with no `=` in the name), `type name`
/// reports the alias and its replacement.
pub proof fn lemma_alias_then_type(
    name: Seq<char>,
    replacement: Seq<char>,
    aliases: AliasEntriesMap,
    history: Seq<Seq<char>>,
    home: Seq<char>,
)
    requires
        !name.contains('='),
    ensures
        builtin_outcome(
            BuiltinType::Type,
            seq![name],
            aliases_after(BuiltinType::Alias, seq![name, replacement], aliases),
            history,
            home,
        ) == write_only(Stream::Stdout, name + " is a alias for "@ + replacement + seq!['\n']),
        builtin_outcome(BuiltinType::Alias, seq![name, replacement], aliases, history, home).completion
            == CompletionView::Insert(name),
{
}

/// After `unalias name`, `name` is no alias any more, and `type name` does
/// not report one.
pub proof fn lemma_unalias_then_type(
    name: Seq<char>,
    aliases: AliasEntriesMap,
    history: Seq<Seq<char>>,
    home: Seq<char>,
)
    ensures
        !aliases_after(BuiltinType::Unalias, seq![name], aliases).contains_key(name),
        builtin_outcome(
            BuiltinType::Type,
            seq![name],
            aliases_after(BuiltinType::Unalias, seq![name], aliases),
            history,
            home,
        ) == if builtin_named(name) is Some {
            write_only(Stream::Stdout, name + " is a shell builtin\n"@)
        } else {
            silent(RequestView::LocateExecutable(name), CompletionView::Unchanged)
        },
{
}

/// Builtins other than `alias` and `unalias` leave the aliases unchanged.
pub proof fn lemma_other_builtins_keep_aliases(
    typ: BuiltinType,
    args: Seq<Seq<char>>,
    aliases: AliasEntriesMap,
)
    requires
        typ != BuiltinType::Alias,
        typ != BuiltinType::Unalias,
    ensures
        aliases_after(typ, args, aliases) == aliases,
{
}

/// `history` numbers the lines it shows from one, whatever its count: it
/// shows the last `count` entries (all of them when there are fewer, or
/// when the count is missing or not a number), oldest first, and line `k`
/// (from zero) is `k + 1` right-aligned in five columns, two spaces, the
/// entry and a newline, written to standard output.
pub proof fn lemma_history_numbering(
    args: Seq<Seq<char>>,
    aliases: AliasEntriesMap,
    history: Seq<Seq<char>>,
    home: Seq<char>,
)
    ensures
        ({
            let out = builtin_outcome(BuiltinType::History, args, aliases, history, home);
            let n: int = match first_arg(args) {
                Some(c) => match parsed_usize(c) {
                    Some(v) => v as int,
                    None => history.len() as int,
                },
                None => history.len() as int,
            };
            let first: int = if history.len() > n {
                history.len() - n
            } else {
                0
            };
            &&& out.writes.len() == history.len() - first
            &&& forall|k: int|
                0 <= k < out.writes.len() ==> #[trigger] out.writes[k] == (
                    Stream::Stdout,
                    pad_left(decimal_digits((k + 1) as nat), 5) + seq![' ', ' '] + history[first + k]
                        + seq!['\n'],
                )
            &&& out.request == RequestView::Nothing
            &&& out.completion == CompletionView::Unchanged
        }),
{
}

/// A count at least as large as the history shows exactly what `history`
/// without a count shows.
pub proof fn lemma_history_large_count(
    c: Seq<char>,
    aliases: AliasEntriesMap,
    history: Seq<Seq<char>>,
    home: Seq<char>,
)
    requires
        parsed_usize(c) matches Some(v) && v >= history.len(),
    ensures
        builtin_outcome(BuiltinType::History, seq![c], aliases, history, home) == builtin_outcome(
            BuiltinType::History,
            Seq::empty(),
            aliases,
            history,
            home,
        ),
{
    let v = parsed_usize(c)->0;
    assert(history_listing(history, v as nat) =~= history_listing(history, history.len()));
    assert(builtin_outcome(BuiltinType::History, seq![c], aliases, history, home) =~= builtin_outcome(
        BuiltinType::History,
        Seq::empty(),
        aliases,
        history,
        home,
    ));
}

} // verus!
