//! The alias store: a map from alias names to replacement text, kept in
//! the order of the names, with the line format it is saved in.
use vstd::prelude::*;
use crate::text::{
    all_white_space, chars_of, is_whitespace, push_range, string_from_chars, is_white_space,
};

verus! {

/// Lexicographic order of character sequences by code point, the order of
/// `String`'s `Ord`.
pub open spec fn lex_lt(a: Seq<char>, b: Seq<char>) -> bool
    decreases a.len(),
{
    if b.len() == 0 {
        false
    } else if a.len() == 0 {
        true
    } else if a[0] != b[0] {
        (a[0] as int) < (b[0] as int)
    } else {
        lex_lt(a.drop_first(), b.drop_first())
    }
}

pub proof fn lemma_lex_irreflexive(a: Seq<char>)
    ensures
        !lex_lt(a, a),
    decreases a.len(),
{
    if a.len() > 0 {
        lemma_lex_irreflexive(a.drop_first());
    }
}

pub proof fn lemma_lex_transitive(a: Seq<char>, b: Seq<char>, c: Seq<char>)
    requires
        lex_lt(a, b),
        lex_lt(b, c),
    ensures
        lex_lt(a, c),
    decreases a.len(),
{
    if a.len() > 0 && b.len() > 0 && c.len() > 0 && a[0] == b[0] && b[0] == c[0] {
        lemma_lex_transitive(a.drop_first(), b.drop_first(), c.drop_first());
    }
}

pub proof fn lemma_lex_total(a: Seq<char>, b: Seq<char>)
    ensures
        a == b || lex_lt(a, b) || lex_lt(b, a),
    decreases a.len(),
{
    if a.len() > 0 && b.len() > 0 && a[0] == b[0] {
        lemma_lex_total(a.drop_first(), b.drop_first());
        if a.drop_first() == b.drop_first() {
            assert(a =~= seq![a[0]] + a.drop_first());
            assert(b =~= seq![b[0]] + b.drop_first());
        }
    } else if a.len() == 0 && b.len() == 0 {
        assert(a =~= b);
    }
}

pub proof fn lemma_lex_asymmetric(a: Seq<char>, b: Seq<char>)
    requires
        lex_lt(a, b),
    ensures
        !lex_lt(b, a),
        a != b,
    decreases a.len(),
{
    if a.len() > 0 && b.len() > 0 && a[0] == b[0] {
        lemma_lex_asymmetric(a.drop_first(), b.drop_first());
    }
    if a == b {
        lemma_lex_irreflexive(a);
    }
}

/// The outcome of comparing two keys.
pub enum KeyOrder {
    Less,
    Equal,
    Greater,
}

/// Compares two character sequences in the order `lex_lt`.
pub fn compare_chars(a: &Vec<char>, b: &Vec<char>) -> (r: KeyOrder)
    ensures
        r is Less <==> lex_lt(a@, b@),
        r is Equal <==> a@ == b@,
        r is Greater <==> lex_lt(b@, a@),
{
    let mut i: usize = 0;
    assert(a@.skip(0) =~= a@);
    assert(b@.skip(0) =~= b@);
    while i < a.len() && i < b.len()
        invariant
            i <= a@.len(),
            i <= b@.len(),
            a@.take(i as int) == b@.take(i as int),
            lex_lt(a@, b@) == lex_lt(a@.skip(i as int), b@.skip(i as int)),
            lex_lt(b@, a@) == lex_lt(b@.skip(i as int), a@.skip(i as int)),
        decreases a.len() - i,
    {
        if a[i] != b[i] {
            proof {
                lemma_lex_total(a@, b@);
                if a@ == b@ {
                    assert(a@[i as int] == b@[i as int]);
                }
            }
            if a[i] < b[i] {
                proof {
                    lemma_lex_asymmetric(a@, b@);
                }
                return KeyOrder::Less;
            } else {
                proof {
                    lemma_lex_asymmetric(b@, a@);
                }
                return KeyOrder::Greater;
            }
        }
        assert(a@.skip(i as int).drop_first() =~= a@.skip(i + 1));
        assert(b@.skip(i as int).drop_first() =~= b@.skip(i + 1));
        assert(a@.take(i + 1) =~= a@.take(i as int).push(a@[i as int]));
        assert(b@.take(i + 1) =~= b@.take(i as int).push(b@[i as int]));
        i = i + 1;
    }
    proof {
        lemma_lex_irreflexive(a@);
    }
    if a.len() == b.len() {
        assert(a@ =~= a@.take(i as int));
        assert(b@ =~= b@.take(i as int));
        KeyOrder::Equal
    } else if a.len() < b.len() {
        assert(a@ =~= a@.take(i as int));
        assert(b@.take(i as int) != b@);
        proof {
            lemma_lex_asymmetric(a@, b@);
        }
        KeyOrder::Less
    } else {
        assert(b@ =~= b@.take(i as int));
        assert(a@.take(i as int) != a@);
        proof {
            lemma_lex_asymmetric(b@, a@);
        }
        KeyOrder::Greater
    }
}

/// The replacement of the first entry named `key`.
pub open spec fn alias_lookup(entries: Seq<(Seq<char>, Seq<char>)>, key: Seq<char>) -> Option<
    Seq<char>,
>
    decreases entries.len(),
{
    if entries.len() == 0 {
        None
    } else if entries[0].0 == key {
        Some(entries[0].1)
    } else {
        alias_lookup(entries.drop_first(), key)
    }
}

/// The length of the longest replacement.
pub open spec fn longest_replacement(entries: Seq<(Seq<char>, Seq<char>)>) -> nat
    decreases entries.len(),
{
    if entries.len() == 0 {
        0
    } else {
        let rest = longest_replacement(entries.drop_first());
        if entries[0].1.len() > rest {
            entries[0].1.len()
        } else {
            rest
        }
    }
}

pub proof fn lemma_lookup_shorter_than_longest(entries: Seq<(Seq<char>, Seq<char>)>, key: Seq<char>)
    ensures
        alias_lookup(entries, key) matches Some(r) ==> r.len() <= longest_replacement(entries),
    decreases entries.len(),
{
    if entries.len() > 0 {
        lemma_lookup_shorter_than_longest(entries.drop_first(), key);
    }
}

/// The names of the entries are in strictly increasing order.
pub open spec fn sorted_keys(entries: Seq<(Seq<char>, Seq<char>)>) -> bool {
    forall|i: int, j: int|
        0 <= i < j < entries.len() ==> lex_lt(#[trigger] entries[i].0, #[trigger] entries[j].0)
}

/// In entries with distinct names, a name is found exactly at its entry.
pub proof fn lemma_lookup_at(entries: Seq<(Seq<char>, Seq<char>)>, key: Seq<char>)
    requires
        sorted_keys(entries),
    ensures
        forall|i: int|
            0 <= i < entries.len() && #[trigger] entries[i].0 == key ==> alias_lookup(entries, key)
                == Some(entries[i].1),
        (forall|i: int| 0 <= i < entries.len() ==> #[trigger] entries[i].0 != key) ==> alias_lookup(
            entries,
            key,
        ) is None,
    decreases entries.len(),
{
    if entries.len() > 0 {
        let rest = entries.drop_first();
        assert(sorted_keys(rest)) by {
            assert forall|i: int, j: int| 0 <= i < j < rest.len() implies lex_lt(
                #[trigger] rest[i].0,
                #[trigger] rest[j].0,
            ) by {
                assert(lex_lt(entries[i + 1].0, entries[j + 1].0));
            }
        }
        lemma_lookup_at(rest, key);
        assert forall|i: int|
            0 <= i < entries.len() && #[trigger] entries[i].0 == key implies alias_lookup(
            entries,
            key,
        ) == Some(entries[i].1) by {
            if i > 0 {
                assert(lex_lt(entries[0].0, entries[i].0));
                lemma_lex_asymmetric(entries[0].0, entries[i].0);
                assert(rest[i - 1] == entries[i]);
            }
        }
        if forall|i: int| 0 <= i < entries.len() ==> #[trigger] entries[i].0 != key {
            assert forall|i: int| 0 <= i < rest.len() implies #[trigger] rest[i].0 != key by {
                assert(rest[i] == entries[i + 1]);
            }
        }
    }
}

/// The map that a list of entries stands for.
pub open spec fn entries_map(entries: Seq<(Seq<char>, Seq<char>)>) -> Map<Seq<char>, Seq<char>> {
    Map::new(|k: Seq<char>| alias_lookup(entries, k) is Some, |k: Seq<char>| alias_lookup(entries, k)->0)
}

/// Aliases: names mapped to the text that replaces them.
pub struct AliasTable {
    entries: Vec<(String, String)>,
}

/// The views of a vector of string pairs.
pub open spec fn pair_views(v: Seq<(String, String)>) -> Seq<(Seq<char>, Seq<char>)> {
    v.map_values(|e: (String, String)| (e.0@, e.1@))
}

impl View for AliasTable {
    type V = Map<Seq<char>, Seq<char>>;

    open spec fn view(&self) -> Map<Seq<char>, Seq<char>> {
        entries_map(self.entries())
    }
}

/// What an alias line of the saved file holds: the alias before the first
/// `=`, its replacement after it; nothing for a blank line, a line with no
/// `=` or a line that starts with `=`.
pub open spec fn parse_alias_line(line: Seq<char>) -> Option<(Seq<char>, Seq<char>)> {
    if all_white_space(line) {
        None
    } else if exists|i: int| 0 <= i < line.len() && line[i] == '=' {
        let i = first_equals(line);
        if i == 0 {
            None
        } else {
            Some((line.take(i), line.skip(i + 1)))
        }
    } else {
        None
    }
}

/// The index of the first `=` of `line` (meaningful when there is one).
pub open spec fn first_equals(line: Seq<char>) -> int {
    choose|i: int|
        0 <= i < line.len() && line[i] == '=' && forall|j: int| 0 <= j < i ==> line[j] != '='
}

/// The line in which an alias is saved.
pub open spec fn alias_line(alias: Seq<char>, replacement: Seq<char>) -> Seq<char> {
    alias + seq!['='] + replacement
}

/// The aliases read from the lines of a saved file: each line that holds an
/// alias sets it, later lines overriding earlier ones.
pub open spec fn aliases_from_lines(lines: Seq<Seq<char>>) -> Map<Seq<char>, Seq<char>>
    decreases lines.len(),
{
    if lines.len() == 0 {
        Map::empty()
    } else {
        let m = aliases_from_lines(lines.drop_last());
        match parse_alias_line(lines.last()) {
            Some((a, r)) => m.insert(a, r),
            None => m,
        }
    }
}

/// Splits an alias line at its first `=`.
pub fn split_alias_line(line: &str) -> (r: Option<(String, String)>)
    ensures
        match parse_alias_line(line@) {
            Some((a, rep)) => r matches Some((x, y)) && x@ == a && y@ == rep,
            None => r is None,
        },
{
    let v = chars_of(line);
    let mut blank = true;
    let mut k: usize = 0;
    while k < v.len()
        invariant
            k <= v@.len(),
            v@ == line@,
            blank == (forall|j: int| 0 <= j < k ==> #[trigger] is_white_space(v@[j])),
        decreases v.len() - k,
    {
        if !is_whitespace(v[k]) {
            blank = false;
        }
        k = k + 1;
    }
    if blank {
        return None;
    }
    assert(!all_white_space(line@));
    let mut i: usize = 0;
    while i < v.len()
        invariant
            i <= v@.len(),
            v@ == line@,
            !all_white_space(line@),
            forall|j: int| 0 <= j < i ==> v@[j] != '=',
        decreases v.len() - i,
    {
        if v[i] == '=' {
            assert(first_equals(line@) == i) by {
                let f = first_equals(line@);
                assert(0 <= f < line@.len() && line@[f] == '=' && forall|j: int|
                    0 <= j < f ==> line@[j] != '=');
                if f < i {
                    assert(v@[f] != '=');
                }
                if f > i {
                    assert(line@[i as int] != '=');
                }
            }
            if i == 0 {
                return None;
            }
            let mut alias: Vec<char> = Vec::new();
            push_range(&mut alias, &v, 0, i);
            let mut rest: Vec<char> = Vec::new();
            push_range(&mut rest, &v, i + 1, v.len());
            assert(line@[i as int] == '=');
            assert(alias@ =~= line@.take(i as int));
            assert(rest@ =~= line@.skip(i + 1));
            return Some((string_from_chars(&alias), string_from_chars(&rest)));
        }
        i = i + 1;
    }
    None
}

impl AliasTable {
    /// The entries, in the order of their names.
    pub closed spec fn entries(&self) -> Seq<(Seq<char>, Seq<char>)> {
        pair_views(self.entries@)
    }

    /// The names are in strictly increasing order.
    pub closed spec fn wf(&self) -> bool {
        sorted_keys(self.entries())
    }

    pub proof fn lemma_wf(&self)
        requires
            self.wf(),
        ensures
            sorted_keys(self.entries()),
            forall|k: Seq<char>| #[trigger] self@.contains_key(k) <==> alias_lookup(self.entries(), k) is Some,
            forall|k: Seq<char>| #[trigger] self@.contains_key(k) ==> self@[k] == alias_lookup(self.entries(), k)->0,
    {
    }

    /// A table with no aliases.
    pub fn new() -> (r: AliasTable)
        ensures
            r.wf(),
            r@ == Map::<Seq<char>, Seq<char>>::empty(),
            r.entries().len() == 0,
    {
        let r = AliasTable { entries: Vec::new() };
        assert(r.entries() =~= Seq::<(Seq<char>, Seq<char>)>::empty());
        assert(r@ =~= Map::<Seq<char>, Seq<char>>::empty());
        r
    }

    /// The number of aliases.
    pub fn len(&self) -> (r: usize)
        ensures
            r == self.entries().len(),
    {
        self.entries.len()
    }

    /// The replacement of `alias`, if it is an alias.
    pub fn get(&self, alias: &str) -> (r: Option<&String>)
        ensures
            match alias_lookup(self.entries(), alias@) {
                Some(rep) => r matches Some(s) && s@ == rep,
                None => r is None,
            },
    {
        let key = chars_of(alias);
        let mut i: usize = 0;
        assert(self.entries().skip(0) =~= self.entries());
        while i < self.entries.len()
            invariant
                i <= self.entries@.len(),
                key@ == alias@,
                alias_lookup(self.entries(), alias@) == alias_lookup(
                    self.entries().skip(i as int),
                    alias@,
                ),
            decreases self.entries.len() - i,
        {
            let name = chars_of(self.entries[i].0.as_str());
            assert(self.entries().skip(i as int)[0] == self.entries()[i as int]);
            if crate::text::chars_equal(&name, &key) {
                return Some(&self.entries[i].1);
            }
            assert(self.entries().skip(i as int).drop_first() =~= self.entries().skip(i + 1));
            i = i + 1;
        }
        None
    }

    /// The index at which `key` is or would be, and whether it is there.
    fn position_of(&self, key: &Vec<char>) -> (r: (usize, bool))
        requires
            self.wf(),
        ensures
            r.0 <= self.entries().len(),
            forall|j: int| 0 <= j < r.0 ==> lex_lt(#[trigger] self.entries()[j].0, key@),
            r.1 ==> r.0 < self.entries().len() && self.entries()[r.0 as int].0 == key@,
            !r.1 ==> forall|j: int|
                r.0 <= j < self.entries().len() ==> lex_lt(key@, #[trigger] self.entries()[j].0),
    {
        let mut i: usize = 0;
        while i < self.entries.len()
            invariant
                self.wf(),
                i <= self.entries@.len(),
                forall|j: int| 0 <= j < i ==> lex_lt(#[trigger] self.entries()[j].0, key@),
            decreases self.entries.len() - i,
        {
            let name = chars_of(self.entries[i].0.as_str());
            match compare_chars(&name, key) {
                KeyOrder::Less => {},
                KeyOrder::Equal => {
                    return (i, true);
                },
                KeyOrder::Greater => {
                    assert forall|j: int| i <= j < self.entries().len() implies lex_lt(
                        key@,
                        #[trigger] self.entries()[j].0,
                    ) by {
                        if j > i {
                            assert(lex_lt(self.entries()[i as int].0, self.entries()[j].0));
                            lemma_lex_transitive(key@, self.entries()[i as int].0, self.entries()[j].0);
                        }
                    }
                    return (i, false);
                },
            }
            i = i + 1;
        }
        (i, false)
    }

    /// Sets the replacement of `alias` to `replacement`, adding the alias if it is new.
    pub fn insert(&mut self, alias: String, replacement: String)
        requires
            old(self).wf(),
        ensures
            final(self).wf(),
            final(self)@ == old(self)@.insert(alias@, replacement@),
    {
        let key = chars_of(alias.as_str());
        let (i, found) = self.position_of(&key);
        let ghost old_entries = self.entries();
        let ghost kv = (alias@, replacement@);
        if found {
            self.entries.set(i, (alias, replacement));
            assert(self.entries() =~= old_entries.update(i as int, kv));
        } else {
            self.entries.insert(i, (alias, replacement));
            assert(self.entries() =~= old_entries.insert(i as int, kv));
        }
        let ghost e = self.entries();
        assert(sorted_keys(e)) by {
            assert forall|a: int, b: int| 0 <= a < b < e.len() implies lex_lt(
                #[trigger] e[a].0,
                #[trigger] e[b].0,
            ) by {
                if found {
                    if a != i && b != i {
                        assert(lex_lt(old_entries[a].0, old_entries[b].0));
                    } else if a == i {
                        assert(lex_lt(old_entries[a].0, old_entries[b].0));
                    } else {
                        assert(lex_lt(old_entries[a].0, old_entries[b].0));
                    }
                } else {
                    if b < i {
                        assert(lex_lt(old_entries[a].0, old_entries[b].0));
                    } else if a > i {
                        assert(lex_lt(old_entries[a - 1].0, old_entries[b - 1].0));
                    } else if a == i {
                        assert(e[b] == old_entries[b - 1]);
                    } else if b == i {
                        assert(e[a] == old_entries[a]);
                    } else {
                        assert(e[a] == old_entries[a]);
                        assert(e[b] == old_entries[b - 1]);
                        lemma_lex_transitive(old_entries[a].0, key@, old_entries[b - 1].0);
                    }
                }
            }
        }
        assert forall|k: Seq<char>| true implies alias_lookup(e, k) == (if k == alias@ {
            Some(replacement@)
        } else {
            alias_lookup(old_entries, k)
        }) by {
            lemma_lookup_at(e, k);
            lemma_lookup_at(old_entries, k);
            if k == alias@ {
                assert(e[i as int].0 == k);
            } else {
                if exists|j: int| 0 <= j < old_entries.len() && old_entries[j].0 == k {
                    let j = choose|j: int| 0 <= j < old_entries.len() && old_entries[j].0 == k;
                    if found {
                        assert(j != i);
                        assert(e[j] == old_entries[j]);
                    } else if j < i {
                        assert(e[j] == old_entries[j]);
                    } else {
                        assert(e[j + 1] == old_entries[j]);
                    }
                } else {
                    assert forall|j: int| 0 <= j < e.len() implies #[trigger] e[j].0 != k by {
                        if found {
                            if j != i {
                                assert(e[j] == old_entries[j]);
                            }
                        } else if j < i {
                            assert(e[j] == old_entries[j]);
                        } else if j > i {
                            assert(e[j] == old_entries[j - 1]);
                        }
                    }
                }
            }
        }
        assert(self@ =~= old(self)@.insert(alias@, replacement@));
    }

    /// Removes `alias`; nothing changes when it is not an alias.
    pub fn remove(&mut self, alias: &str)
        requires
            old(self).wf(),
        ensures
            final(self).wf(),
            final(self)@ == old(self)@.remove(alias@),
    {
        let key = chars_of(alias);
        let (i, found) = self.position_of(&key);
        let ghost old_entries = self.entries();
        if found {
            self.entries.remove(i);
            assert(self.entries() =~= old_entries.remove(i as int));
        }
        let ghost e = self.entries();
        assert(sorted_keys(e)) by {
            if found {
                assert forall|a: int, b: int| 0 <= a < b < e.len() implies lex_lt(
                    #[trigger] e[a].0,
                    #[trigger] e[b].0,
                ) by {
                    if b < i {
                        assert(lex_lt(old_entries[a].0, old_entries[b].0));
                    } else if a >= i {
                        assert(lex_lt(old_entries[a + 1].0, old_entries[b + 1].0));
                    } else {
                        assert(lex_lt(old_entries[a].0, old_entries[b + 1].0));
                    }
                }
            }
        }
        assert forall|k: Seq<char>| true implies alias_lookup(e, k) == (if k == alias@ {
            None
        } else {
            alias_lookup(old_entries, k)
        }) by {
            lemma_lookup_at(e, k);
            lemma_lookup_at(old_entries, k);
            if k == alias@ {
                lemma_lex_irreflexive(key@);
                assert forall|j: int| 0 <= j < e.len() implies #[trigger] e[j].0 != k by {
                    if found {
                        if j < i {
                            assert(e[j] == old_entries[j]);
                            assert(lex_lt(old_entries[j].0, key@));
                        } else {
                            assert(e[j] == old_entries[j + 1]);
                            assert(lex_lt(old_entries[i as int].0, old_entries[j + 1].0));
                        }
                    } else {
                        if j < i {
                            assert(lex_lt(e[j].0, key@));
                            lemma_lex_irreflexive(key@);
                        } else {
                            assert(lex_lt(key@, e[j].0));
                            lemma_lex_irreflexive(key@);
                        }
                    }
                }
            } else {
                if exists|j: int| 0 <= j < old_entries.len() && old_entries[j].0 == k {
                    let j = choose|j: int| 0 <= j < old_entries.len() && old_entries[j].0 == k;
                    if found {
                        assert(j != i);
                        if j < i {
                            assert(e[j] == old_entries[j]);
                        } else {
                            assert(e[j - 1] == old_entries[j]);
                        }
                    } else {
                        assert(e[j] == old_entries[j]);
                    }
                } else {
                    assert forall|j: int| 0 <= j < e.len() implies #[trigger] e[j].0 != k by {
                        if found {
                            if j < i {
                                assert(e[j] == old_entries[j]);
                            } else {
                                assert(e[j] == old_entries[j + 1]);
                            }
                        } else {
                            assert(e[j] == old_entries[j]);
                        }
                    }
                }
            }
        }
        assert(self@ =~= old(self)@.remove(alias@));
    }

    /// The aliases that the lines of a saved file hold.
    pub fn from_lines(lines: &Vec<String>) -> (r: AliasTable)
        ensures
            r.wf(),
            r@ == aliases_from_lines(string_views_of(lines@)),
    {
        let mut table = AliasTable::new();
        let mut i: usize = 0;
        while i < lines.len()
            invariant
                i <= lines@.len(),
                table.wf(),
                table@ == aliases_from_lines(string_views_of(lines@).take(i as int)),
            decreases lines.len() - i,
        {
            let ghost pre = string_views_of(lines@).take(i as int);
            let ghost next = string_views_of(lines@).take(i + 1);
            assert(next.drop_last() =~= pre);
            assert(next.last() == lines@[i as int]@);
            match split_alias_line(lines[i].as_str()) {
                Some((alias, replacement)) => {
                    table.insert(alias, replacement);
                },
                None => {},
            }
            i = i + 1;
        }
        assert(string_views_of(lines@).take(lines@.len() as int) =~= string_views_of(lines@));
        table
    }

    /// The lines to save the aliases in, one `alias=replacement` line per
    /// alias, in the order of the names.
    pub fn save_lines(&self) -> (r: Vec<String>)
        ensures
            r@.len() == self.entries().len(),
            forall|i: int|
                0 <= i < r@.len() ==> #[trigger] r@[i]@ == alias_line(
                    self.entries()[i].0,
                    self.entries()[i].1,
                ),
    {
        let mut out: Vec<String> = Vec::new();
        let mut i: usize = 0;
        while i < self.entries.len()
            invariant
                i <= self.entries@.len(),
                out@.len() == i,
                forall|j: int|
                    0 <= j < i ==> #[trigger] out@[j]@ == alias_line(
                        self.entries()[j].0,
                        self.entries()[j].1,
                    ),
            decreases self.entries.len() - i,
        {
            let mut line = self.entries[i].0.clone();
            line.push('=');
            crate::text::push_str(&mut line, self.entries[i].1.as_str());
            assert(line@ =~= alias_line(self.entries()[i as int].0, self.entries()[i as int].1));
            out.push(line);
            i = i + 1;
        }
        out
    }
}

/// The views of a vector of strings.
pub open spec fn string_views_of(v: Seq<String>) -> Seq<Seq<char>> {
    v.map_values(|s: String| s@)
}

/// After an alias is set, looking it up yields its replacement.
pub proof fn lemma_get_after_insert(before: AliasTable, after: AliasTable, alias: Seq<char>, replacement: Seq<char>)
    requires
        after@ == before@.insert(alias, replacement),
    ensures
        alias_lookup(after.entries(), alias) == Some(replacement),
{
    assert(after@.contains_key(alias));
    assert(after@[alias] == replacement);
    assert(entries_map(after.entries()).contains_key(alias));
    assert(alias_lookup(after.entries(), alias) is Some);
    assert(entries_map(after.entries())[alias] == alias_lookup(after.entries(), alias)->0);
}

/// After an alias is removed, looking it up yields nothing, and the other
/// aliases are unchanged.
pub proof fn lemma_get_after_remove(before: AliasTable, after: AliasTable, alias: Seq<char>, other: Seq<char>)
    requires
        after@ == before@.remove(alias),
        other != alias,
    ensures
        alias_lookup(after.entries(), alias) is None,
        alias_lookup(after.entries(), other) == alias_lookup(before.entries(), other),
{
    assert(!after@.contains_key(alias));
    if alias_lookup(before.entries(), other) is Some {
        assert(before@.contains_key(other));
        assert(after@.contains_key(other));
        assert(after@[other] == before@[other]);
        assert(alias_lookup(after.entries(), other) is Some);
    } else {
        assert(!before@.contains_key(other));
        assert(!after@.contains_key(other));
    }
}

/// The line saved for an alias whose name is not empty and holds no `=` is
/// read back as that alias.
pub proof fn lemma_alias_line_roundtrip(alias: Seq<char>, replacement: Seq<char>)
    requires
        alias.len() > 0,
        !alias.contains('='),
    ensures
        parse_alias_line(alias_line(alias, replacement)) == Some((alias, replacement)),
{
    let line = alias_line(alias, replacement);
    let n = alias.len() as int;
    assert(line[n] == '=');
    assert(!is_white_space(line[n]));
    assert(!all_white_space(line));
    assert forall|j: int| 0 <= j < n implies line[j] != '=' by {
        assert(line[j] == alias[j]);
    }
    let f = first_equals(line);
    assert(0 <= f < line.len() && line[f] == '=' && forall|j: int| 0 <= j < f ==> line[j] != '=');
    if f < n {
        assert(line[f] == alias[f]);
    }
    if f > n {
        assert(line[n] != '=');
    }
    assert(line.take(n) =~= alias);
    assert(line.skip(n + 1) =~= replacement);
}

/// The lines that `save_lines` yields for entries `e`.
pub open spec fn saved_lines(e: Seq<(Seq<char>, Seq<char>)>) -> Seq<Seq<char>> {
    Seq::new(e.len(), |i: int| alias_line(e[i].0, e[i].1))
}

/// Saving the aliases and reading the saved lines back gives the same
/// aliases, when no alias name is empty or holds `=`.
pub proof fn lemma_save_load_roundtrip(t: AliasTable)
    requires
        t.wf(),
        forall|i: int|
            0 <= i < t.entries().len() ==> (#[trigger] t.entries()[i]).0.len() > 0 && !t.entries()[i].0.contains(
                '=',
            ),
    ensures
        aliases_from_lines(saved_lines(t.entries())) == t@,
{
    let e = t.entries();
    lemma_load_prefix(e, e.len() as int);
    assert(saved_lines(e).take(e.len() as int) =~= saved_lines(e));
    assert(e.take(e.len() as int) =~= e);
}

proof fn lemma_load_prefix(e: Seq<(Seq<char>, Seq<char>)>, k: int)
    requires
        sorted_keys(e),
        0 <= k <= e.len(),
        forall|i: int| 0 <= i < e.len() ==> (#[trigger] e[i]).0.len() > 0 && !e[i].0.contains('='),
    ensures
        aliases_from_lines(saved_lines(e).take(k)) == entries_map(e.take(k)),
    decreases k,
{
    let lines = saved_lines(e).take(k);
    let p = e.take(k);
    assert(sorted_keys(p)) by {
        assert forall|i: int, j: int| 0 <= i < j < p.len() implies lex_lt(#[trigger] p[i].0, #[trigger] p[j].0) by {
            assert(lex_lt(e[i].0, e[j].0));
        }
    }
    if k == 0 {
        assert(entries_map(p) =~= Map::<Seq<char>, Seq<char>>::empty());
    } else {
        lemma_load_prefix(e, k - 1);
        let q = e.take(k - 1);
        assert(lines.drop_last() =~= saved_lines(e).take(k - 1));
        assert(lines.last() == alias_line(e[k - 1].0, e[k - 1].1));
        lemma_alias_line_roundtrip(e[k - 1].0, e[k - 1].1);
        assert(sorted_keys(q)) by {
            assert forall|i: int, j: int| 0 <= i < j < q.len() implies lex_lt(#[trigger] q[i].0, #[trigger] q[j].0) by {
                assert(lex_lt(e[i].0, e[j].0));
            }
        }
        assert forall|key: Seq<char>| true implies alias_lookup(p, key) == (if key == e[k - 1].0 {
            Some(e[k - 1].1)
        } else {
            alias_lookup(q, key)
        }) by {
            lemma_lookup_at(p, key);
            lemma_lookup_at(q, key);
            if key == e[k - 1].0 {
                assert(p[k - 1] == e[k - 1]);
            } else {
                if exists|j: int| 0 <= j < q.len() && q[j].0 == key {
                    let j = choose|j: int| 0 <= j < q.len() && q[j].0 == key;
                    assert(p[j] == q[j]);
                } else {
                    assert forall|j: int| 0 <= j < p.len() implies #[trigger] p[j].0 != key by {
                        if j < k - 1 {
                            assert(p[j] == q[j]);
                        }
                    }
                }
            }
        }
        assert(entries_map(p) =~= entries_map(q).insert(e[k - 1].0, e[k - 1].1));
    }
}

} // verus!
