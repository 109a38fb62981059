//! Completion of the first word of a line from the known command names.
use vstd::prelude::*;
use crate::text::{
    all_white_space, chars_of, is_prefix, is_white_space, is_whitespace, push_range, starts_with,
    string_from, string_views,
};

verus! {

/// The number of bytes of `c` in UTF-8 (what `char::len_utf8` gives).
pub open spec fn utf8_len(c: char) -> nat {
    if (c as u32) < 0x80 {
        1
    } else if (c as u32) < 0x800 {
        2
    } else if (c as u32) < 0x10000 {
        3
    } else {
        4
    }
}

/// The number of bytes of `s` in UTF-8.
pub open spec fn utf8_size(s: Seq<char>) -> nat
    decreases s.len(),
{
    if s.len() == 0 {
        0
    } else {
        utf8_size(s.drop_last()) + utf8_len(s.last())
    }
}

/// The index just after the last white-space character of `s`, or 0.
pub open spec fn word_start(s: Seq<char>) -> int
    decreases s.len(),
{
    if s.len() == 0 {
        0
    } else if is_white_space(s.last()) {
        s.len() as int
    } else {
        word_start(s.drop_last())
    }
}

/// The names of `commands` that start with `token`, in order.
pub open spec fn matching(commands: Seq<Seq<char>>, token: Seq<char>) -> Seq<Seq<char>> {
    commands.filter(|c: Seq<char>| is_prefix(token, c))
}

/// What completing the text `before` the cursor offers: for the first word
/// of the line, the byte offset where the word starts and the command names
/// it begins; for a later word, file names (left to the file completer).
pub enum CompletionView {
    Commands(nat, Seq<Seq<char>>),
    Files,
}

/// The completion of `before` from `commands`.
pub open spec fn completion_of(commands: Seq<Seq<char>>, before: Seq<char>) -> CompletionView {
    let start = word_start(before);
    if all_white_space(before.take(start)) {
        CompletionView::Commands(utf8_size(before.take(start)), matching(commands, before.skip(start)))
    } else {
        CompletionView::Files
    }
}

/// The offset computation works in bytes: the white space that ends the
/// text before the word is a single byte.
pub open spec fn completion_defined(before: Seq<char>) -> bool {
    word_start(before) > 0 ==> (before[word_start(before) - 1] as u32) < 0x80
}

/// The result of completing.
#[derive(Debug)]
pub enum Completion {
    /// Replace the word that starts at byte `start` by one of `candidates`.
    Commands { start: usize, candidates: Vec<String> },
    /// Complete a file name.
    Files,
}

/// The view of a completion.
pub open spec fn completion_view(c: Completion) -> CompletionView {
    match c {
        Completion::Commands { start, candidates } => CompletionView::Commands(
            start as nat,
            string_views(candidates@),
        ),
        Completion::Files => CompletionView::Files,
    }
}

/// The test that keeps every name but `name`.
pub open spec fn other_than(name: Seq<char>) -> spec_fn(Seq<char>) -> bool {
    |c: Seq<char>| c != name
}

/// The command names offered for completion, without duplicates.
pub struct CommandSet {
    commands: Vec<String>,
}

impl View for CommandSet {
    type V = Seq<Seq<char>>;

    closed spec fn view(&self) -> Seq<Seq<char>> {
        string_views(self.commands@)
    }
}

/// The builtin names offered when the shell starts.
pub open spec fn initial_commands() -> Seq<Seq<char>> {
    seq!["exit"@, "echo"@, "type"@, "pwd"@, "cd"@, "history"@, "alias"@, "unalias"@]
}

fn utf8_len_of(c: char) -> (r: usize)
    ensures
        r == utf8_len(c),
{
    if (c as u32) < 0x80 {
        1
    } else if (c as u32) < 0x800 {
        2
    } else if (c as u32) < 0x10000 {
        3
    } else {
        4
    }
}

impl CommandSet {
    /// No name occurs twice.
    pub closed spec fn wf(&self) -> bool {
        self@.no_duplicates()
    }

    /// The builtin names `exit`, `echo`, `type`, `pwd`, `cd`, `history`,
    /// `alias` and `unalias`.
    pub fn new() -> (r: CommandSet)
        ensures
            r.wf(),
            r@ == initial_commands(),
    {
        let mut commands = Vec::new();
        commands.push(string_from("exit"));
        commands.push(string_from("echo"));
        commands.push(string_from("type"));
        commands.push(string_from("pwd"));
        commands.push(string_from("cd"));
        commands.push(string_from("history"));
        commands.push(string_from("alias"));
        commands.push(string_from("unalias"));
        let r = CommandSet { commands };
        assert(r@ =~= initial_commands());
        proof {
            reveal_strlit("exit");
            reveal_strlit("echo");
            reveal_strlit("type");
            reveal_strlit("pwd");
            reveal_strlit("cd");
            reveal_strlit("history");
            reveal_strlit("alias");
            reveal_strlit("unalias");
        }
        assert(r@.no_duplicates()) by {
            assert forall|i: int, j: int|
                0 <= i < r@.len() && 0 <= j < r@.len() && i != j implies r@[i] != r@[j] by {
                if r@[i] == r@[j] {
                    assert(r@[i].len() == r@[j].len());
                    assert(r@[i][0] == r@[j][0]);
                    assert(r@[i][1] == r@[j][1]);
                }
            }
        }
        r
    }

    fn index_of(&self, name: &str) -> (r: Option<usize>)
        ensures
            match r {
                Some(i) => i < self@.len() && self@[i as int] == name@,
                None => !self@.contains(name@),
            },
    {
        let key = chars_of(name);
        let mut i: usize = 0;
        while i < self.commands.len()
            invariant
                i <= self.commands@.len(),
                key@ == name@,
                forall|j: int| 0 <= j < i ==> self@[j] != name@,
            decreases self.commands.len() - i,
        {
            let c = chars_of(self.commands[i].as_str());
            if crate::text::chars_equal(&c, &key) {
                return Some(i);
            }
            i = i + 1;
        }
        None
    }

    /// Adds `name` if it is not offered yet.
    pub fn insert(&mut self, name: String)
        requires
            old(self).wf(),
        ensures
            final(self).wf(),
            final(self)@ == if old(self)@.contains(name@) {
                old(self)@
            } else {
                old(self)@.push(name@)
            },
    {
        if self.index_of(name.as_str()).is_none() {
            let ghost before = self@;
            self.commands.push(name);
            assert(self@ =~= before.push(name@));
        }
    }

    /// Stops offering `name`.
    pub fn remove(&mut self, name: &str)
        requires
            old(self).wf(),
        ensures
            final(self).wf(),
            final(self)@ == old(self)@.filter(other_than(name@)),
    {
        let ghost before = self@;
        match self.index_of(name) {
            Some(i) => {
                self.commands.remove(i);
                assert(self@ =~= before.remove(i as int));
                proof {
                    lemma_filter_removes_unique(before, i as int, name@);
                    assert(self@.no_duplicates()) by {
                        assert forall|a: int, b: int|
                            0 <= a < self@.len() && 0 <= b < self@.len() && a != b implies self@[a]
                            != self@[b] by {
                            let a2 = if a < i { a } else { a + 1 };
                            let b2 = if b < i { b } else { b + 1 };
                            assert(self@[a] == before[a2]);
                            assert(self@[b] == before[b2]);
                        }
                    }
                }
            },
            None => {
                proof {
                    lemma_filter_keeps_absent(before, name@);
                }
            },
        }
    }

    /// The completion of the text `before` the cursor, for a text whose
    /// word is not preceded by multi-byte white space.
    pub fn complete(&self, before: &str) -> (r: Completion)
        requires
            completion_defined(before@),
            utf8_size(before@) <= usize::MAX,
        ensures
            completion_view(r) == completion_of(self@, before@),
    {
        let v = chars_of(before);
        let mut start: usize = 0;
        let mut i: usize = 0;
        while i < v.len()
            invariant
                i <= v@.len(),
                v@ == before@,
                start == word_start(v@.take(i as int)),
                start <= i,
            decreases v.len() - i,
        {
            assert(v@.take(i + 1).drop_last() =~= v@.take(i as int));
            if is_whitespace(v[i]) {
                start = i + 1;
            }
            i = i + 1;
        }
        assert(v@.take(v@.len() as int) =~= v@);
        let mut first_word = true;
        let mut bytes: usize = 0;
        let mut k: usize = 0;
        while k < start
            invariant
                k <= start <= v@.len(),
                v@ == before@,
                start == word_start(v@),
                first_word == all_white_space(v@.take(k as int)),
                bytes == utf8_size(v@.take(k as int)),
                utf8_size(v@) <= usize::MAX,
            decreases start - k,
        {
            assert(v@.take(k + 1).drop_last() =~= v@.take(k as int));
            if !is_whitespace(v[k]) {
                first_word = false;
            }
            proof {
                lemma_utf8_size_prefix(v@, k + 1);
            }
            bytes = bytes + utf8_len_of(v[k]);
            k = k + 1;
            assert(first_word == all_white_space(v@.take(k as int))) by {
                if !first_word {
                    if !is_white_space(v@[k - 1]) {
                        assert(v@.take(k as int)[k - 1] == v@[k - 1]);
                    } else {
                        let j = choose|j: int| 0 <= j < k - 1 && !is_white_space(#[trigger] v@.take(k - 1)[j]);
                        assert(v@.take(k as int)[j] == v@.take(k - 1)[j]);
                    }
                }
            }
        }
        if !first_word {
            return Completion::Files;
        }
        let mut token: Vec<char> = Vec::new();
        push_range(&mut token, &v, start, v.len());
        assert(token@ =~= before@.skip(start as int));
        let mut candidates: Vec<String> = Vec::new();
        let mut j: usize = 0;
        while j < self.commands.len()
            invariant
                j <= self.commands@.len(),
                string_views(candidates@) == matching(self@.take(j as int), token@),
            decreases self.commands.len() - j,
        {
            let c = chars_of(self.commands[j].as_str());
            let ghost pre = self@.take(j as int);
            assert(self@.take(j + 1) =~= pre.push(self@[j as int]));
            proof {
                lemma_filter_push(pre, self@[j as int], |c: Seq<char>| is_prefix(token@, c));
            }
            if starts_with(&c, &token) {
                let ghost cb = candidates@;
                candidates.push(self.commands[j].clone());
                assert(string_views(candidates@) =~= string_views(cb).push(self@[j as int]));
            }
            j = j + 1;
        }
        assert(self@.take(self@.len() as int) =~= self@);
        Completion::Commands { start: bytes, candidates }
    }
}

proof fn lemma_utf8_size_prefix(s: Seq<char>, k: int)
    requires
        0 <= k <= s.len(),
    ensures
        utf8_size(s.take(k)) <= utf8_size(s),
    decreases s.len() - k,
{
    if k < s.len() {
        lemma_utf8_size_prefix(s, k + 1);
        assert(s.take(k + 1).drop_last() =~= s.take(k));
    } else {
        assert(s.take(k) =~= s);
    }
}

proof fn lemma_filter_push<A>(s: Seq<A>, x: A, p: spec_fn(A) -> bool)
    ensures
        s.push(x).filter(p) == if p(x) {
            s.filter(p).push(x)
        } else {
            s.filter(p)
        },
{
    reveal(Seq::filter);
    assert(s.push(x).drop_last() =~= s);
}

proof fn lemma_filter_keeps_absent(s: Seq<Seq<char>>, name: Seq<char>)
    requires
        !s.contains(name),
    ensures
        s.filter(other_than(name)) == s,
    decreases s.len(),
{
    if s.len() > 0 {
        lemma_filter_keeps_absent(s.drop_last(), name);
        lemma_filter_push(s.drop_last(), s.last(), other_than(name));
        assert(s.drop_last().push(s.last()) =~= s);
    } else {
        reveal(Seq::filter);
        assert(s.filter(other_than(name)) =~= s);
    }
}

proof fn lemma_filter_removes_unique(s: Seq<Seq<char>>, i: int, name: Seq<char>)
    requires
        s.no_duplicates(),
        0 <= i < s.len(),
        s[i] == name,
    ensures
        s.filter(other_than(name)) == s.remove(i),
    decreases s.len(),
{
    let p = other_than(name);
    lemma_filter_push(s.drop_last(), s.last(), p);
    assert(s.drop_last().push(s.last()) =~= s);
    if i == s.len() - 1 {
        assert(!s.drop_last().contains(name)) by {
            if s.drop_last().contains(name) {
                let j = choose|j: int| 0 <= j < s.drop_last().len() && s.drop_last()[j] == name;
                assert(s[j] == s[i]);
            }
        }
        lemma_filter_keeps_absent(s.drop_last(), name);
        assert(s.remove(i) =~= s.drop_last());
    } else {
        lemma_filter_removes_unique(s.drop_last(), i, name);
        assert(s.last() != name);
        assert(s.remove(i) =~= s.drop_last().remove(i).push(s.last()));
    }
}

/// The first word of a line completes to exactly the known commands that
/// start with the whole word typed so far, in their order: a command is
/// offered if and only if the word is a prefix of it.
pub proof fn lemma_candidates_share_the_word(commands: Seq<Seq<char>>, before: Seq<char>)
    ensures
        completion_of(commands, before) matches CompletionView::Commands(_, cands) ==> {
            let token = before.skip(word_start(before));
            &&& cands == commands.filter(
                |c: Seq<char>| token.len() <= c.len() && c.subrange(0, token.len() as int) == token,
            )
            &&& forall|c: Seq<char>|
                #[trigger] cands.contains(c) <==> commands.contains(c) && token.len() <= c.len()
                    && c.subrange(0, token.len() as int) == token
        },
{
    let token = before.skip(word_start(before));
    let p1 = |c: Seq<char>| is_prefix(token, c);
    let p2 = |c: Seq<char>| token.len() <= c.len() && c.subrange(0, token.len() as int) == token;
    assert(p1 =~= p2);
    let cands = commands.filter(p2);
    assert forall|c: Seq<char>|
        #[trigger] cands.contains(c) <==> commands.contains(c) && token.len() <= c.len()
            && c.subrange(0, token.len() as int) == token by {
        if cands.contains(c) {
            commands.lemma_filter_contains_rev(p2, c);
            let j = choose|j: int| 0 <= j < cands.len() && cands[j] == c;
            commands.lemma_filter_pred(p2, j);
        }
        if commands.contains(c) && p2(c) {
            let i = choose|i: int| 0 <= i < commands.len() && commands[i] == c;
            commands.lemma_filter_contains(p2, i);
        }
    }
}

} // verus!
