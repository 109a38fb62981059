//! Commands: a builtin of the shell, or an external program, with the
//! arguments given to it.
use vstd::prelude::*;
use crate::text::{str_equal, string_views};

verus! {

/// The builtins of the shell.
#[derive(Clone, Copy, Debug, PartialEq, Eq, Structural)]
pub enum BuiltinType {
    Exit,
    Echo,
    Type,
    Pwd,
    Cd,
    History,
    Alias,
    Unalias,
}

/// The name under which a builtin is invoked.
pub open spec fn builtin_name(t: BuiltinType) -> Seq<char> {
    match t {
        BuiltinType::Exit => seq!['e', 'x', 'i', 't'],
        BuiltinType::Echo => seq!['e', 'c', 'h', 'o'],
        BuiltinType::Type => seq!['t', 'y', 'p', 'e'],
        BuiltinType::Pwd => seq!['p', 'w', 'd'],
        BuiltinType::Cd => seq!['c', 'd'],
        BuiltinType::History => seq!['h', 'i', 's', 't', 'o', 'r', 'y'],
        BuiltinType::Alias => seq!['a', 'l', 'i', 'a', 's'],
        BuiltinType::Unalias => seq!['u', 'n', 'a', 'l', 'i', 'a', 's'],
    }
}

/// The builtin invoked by `name`, if there is one.
pub open spec fn builtin_named(name: Seq<char>) -> Option<BuiltinType> {
    if name == builtin_name(BuiltinType::History) {
        Some(BuiltinType::History)
    } else if name == builtin_name(BuiltinType::Exit) {
        Some(BuiltinType::Exit)
    } else if name == builtin_name(BuiltinType::Echo) {
        Some(BuiltinType::Echo)
    } else if name == builtin_name(BuiltinType::Type) {
        Some(BuiltinType::Type)
    } else if name == builtin_name(BuiltinType::Pwd) {
        Some(BuiltinType::Pwd)
    } else if name == builtin_name(BuiltinType::Cd) {
        Some(BuiltinType::Cd)
    } else if name == builtin_name(BuiltinType::Alias) {
        Some(BuiltinType::Alias)
    } else if name == builtin_name(BuiltinType::Unalias) {
        Some(BuiltinType::Unalias)
    } else {
        None
    }
}

impl BuiltinType {
    /// The builtin named `s`; `Err(())` when `s` names none.
    pub fn from_str(s: &str) -> (r: Result<BuiltinType, ()>)
        ensures
            match builtin_named(s@) {
                Some(t) => r == Ok::<BuiltinType, ()>(t),
                None => r is Err,
            },
    {
        proof {
            reveal_strlit("history");
            assert("history"@ =~= builtin_name(BuiltinType::History));
            reveal_strlit("exit");
            assert("exit"@ =~= builtin_name(BuiltinType::Exit));
            reveal_strlit("echo");
            assert("echo"@ =~= builtin_name(BuiltinType::Echo));
            reveal_strlit("type");
            assert("type"@ =~= builtin_name(BuiltinType::Type));
            reveal_strlit("pwd");
            assert("pwd"@ =~= builtin_name(BuiltinType::Pwd));
            reveal_strlit("cd");
            assert("cd"@ =~= builtin_name(BuiltinType::Cd));
            reveal_strlit("alias");
            assert("alias"@ =~= builtin_name(BuiltinType::Alias));
            reveal_strlit("unalias");
            assert("unalias"@ =~= builtin_name(BuiltinType::Unalias));
        }
        if str_equal(s, "history") {
            Ok(BuiltinType::History)
        } else if str_equal(s, "exit") {
            Ok(BuiltinType::Exit)
        } else if str_equal(s, "echo") {
            Ok(BuiltinType::Echo)
        } else if str_equal(s, "type") {
            Ok(BuiltinType::Type)
        } else if str_equal(s, "pwd") {
            Ok(BuiltinType::Pwd)
        } else if str_equal(s, "cd") {
            Ok(BuiltinType::Cd)
        } else if str_equal(s, "alias") {
            Ok(BuiltinType::Alias)
        } else if str_equal(s, "unalias") {
            Ok(BuiltinType::Unalias)
        } else {
            Err(())
        }
    }
}

/// Every builtin is found again under its own name.
pub proof fn lemma_builtin_name_roundtrip(t: BuiltinType)
    ensures
        builtin_named(builtin_name(t)) == Some(t),
{
}

/// A builtin invocation: which builtin, and its arguments.
#[derive(Debug)]
pub struct Builtin {
    typ: BuiltinType,
    args: Vec<String>,
}

/// An external program invocation: the program and its arguments.
#[derive(Debug)]
pub struct ExternalCommand {
    program: String,
    args: Vec<String>,
}

/// A command of a command line.
#[derive(Debug)]
pub enum Cmd {
    External(ExternalCommand),
    Builtin(Builtin),
}

/// The mathematical value of a command.
pub enum CmdView {
    External(Seq<char>, Seq<Seq<char>>),
    Builtin(BuiltinType, Seq<Seq<char>>),
}

impl View for Builtin {
    type V = (BuiltinType, Seq<Seq<char>>);

    closed spec fn view(&self) -> (BuiltinType, Seq<Seq<char>>) {
        (self.typ, string_views(self.args@))
    }
}

impl View for ExternalCommand {
    type V = (Seq<char>, Seq<Seq<char>>);

    closed spec fn view(&self) -> (Seq<char>, Seq<Seq<char>>) {
        (self.program@, string_views(self.args@))
    }
}

impl View for Cmd {
    type V = CmdView;

    open spec fn view(&self) -> CmdView {
        match self {
            Cmd::External(e) => CmdView::External(e@.0, e@.1),
            Cmd::Builtin(b) => CmdView::Builtin(b@.0, b@.1),
        }
    }
}

/// The command that `name` stands for, with arguments `args`: the builtin
/// of that name if there is one, else the external program.
pub open spec fn command_for(name: Seq<char>, args: Seq<Seq<char>>) -> CmdView {
    match builtin_named(name) {
        Some(t) => CmdView::Builtin(t, args),
        None => CmdView::External(name, args),
    }
}

/// `c` with `more` appended to its arguments.
pub open spec fn with_more_args(c: CmdView, more: Seq<Seq<char>>) -> CmdView {
    match c {
        CmdView::External(p, a) => CmdView::External(p, a + more),
        CmdView::Builtin(t, a) => CmdView::Builtin(t, a + more),
    }
}

proof fn lemma_string_views_append(a: Seq<String>, b: Seq<String>)
    ensures
        string_views(a + b) == string_views(a) + string_views(b),
{
    assert(string_views(a + b) =~= string_views(a) + string_views(b));
}

impl Builtin {
    /// The builtin named `typ`, with no arguments; `Err(())` when `typ` names none.
    pub fn new(typ: &str) -> (r: Result<Builtin, ()>)
        ensures
            match builtin_named(typ@) {
                Some(t) => r matches Ok(b) && b@ == (t, Seq::<Seq<char>>::empty()),
                None => r is Err,
            },
    {
        let builtin_typ = BuiltinType::from_str(typ)?;
        let b = Builtin { typ: builtin_typ, args: Vec::new() };
        assert(string_views(b.args@) =~= Seq::<Seq<char>>::empty());
        Ok(b)
    }

    /// Moves the strings of `args` to the end of the builtin's arguments.
    pub fn set_args(&mut self, args: &mut Vec<String>)
        ensures
            final(self)@ == (old(self)@.0, old(self)@.1 + string_views(old(args)@)),
            final(args)@.len() == 0,
    {
        proof {
            lemma_string_views_append(self.args@, args@);
        }
        self.args.append(args);
    }

    /// Which builtin this is.
    pub fn typ(&self) -> (r: BuiltinType)
        ensures
            r == self@.0,
    {
        self.typ
    }

    /// The arguments of the builtin.
    pub fn args(&self) -> (r: &Vec<String>)
        ensures
            string_views(r@) == self@.1,
    {
        &self.args
    }
}

impl ExternalCommand {
    /// The program to run.
    pub fn program(&self) -> (r: &String)
        ensures
            r@ == self@.0,
    {
        &self.program
    }

    /// The arguments given to the program.
    pub fn args(&self) -> (r: &Vec<String>)
        ensures
            string_views(r@) == self@.1,
    {
        &self.args
    }
}

impl Cmd {
    /// The command invoked by `name`: its builtin if it names one, else the
    /// external program `name`; no arguments yet.
    pub fn new(name: &str) -> (r: Cmd)
        ensures
            r@ == command_for(name@, Seq::empty()),
    {
        match Builtin::new(name) {
            Ok(builtin) => Cmd::Builtin(builtin),
            Err(()) => {
                let e = ExternalCommand { program: name.to_string(), args: Vec::new() };
                assert(string_views(e.args@) =~= Seq::<Seq<char>>::empty());
                Cmd::External(e)
            },
        }
    }

    /// Moves the strings of `args` to the end of the command's arguments.
    pub fn set_args(&mut self, args: &mut Vec<String>)
        ensures
            final(self)@ == with_more_args(old(self)@, string_views(old(args)@)),
            final(args)@.len() == 0,
    {
        match self {
            Cmd::External(command) => {
                proof {
                    lemma_string_views_append(command.args@, args@);
                }
                command.args.append(args);
            },
            Cmd::Builtin(builtin) => {
                builtin.set_args(args);
            },
        }
    }
}

} // verus!
