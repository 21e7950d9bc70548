//! Reading the user's input: the list of priority pids and the configuration file.

use vstd::prelude::*;
use std::collections::HashSet;
use vstd::string::*;
use crate::text::{chars_of, is_white_space, parse_usize, parse_usize_in, trim_bounds, trimmed, white_space};

verus! {

broadcast use vstd::std_specs::hash::group_hash_axioms;

/// The fields of `s` between the characters that `sep` accepts, empty fields
/// included (as `str::split` yields them).
pub open spec fn fields(s: Seq<char>, sep: spec_fn(char) -> bool) -> Seq<Seq<char>>
    decreases s.len(),
{
    if s.len() == 0 {
        seq![Seq::empty()]
    } else {
        let f = fields(s.drop_last(), sep);
        if sep(s.last()) {
            f.push(Seq::empty())
        } else {
            f.update(f.len() - 1, f.last().push(s.last()))
        }
    }
}

/// Splitting always yields at least one field.
pub proof fn lemma_fields_nonempty(s: Seq<char>, sep: spec_fn(char) -> bool)
    ensures
        fields(s, sep).len() >= 1,
    decreases s.len(),
{
    if s.len() > 0 {
        lemma_fields_nonempty(s.drop_last(), sep);
    }
}

/// One more character extends the last field, or starts a new one when it separates.
proof fn lemma_fields_step(s: Seq<char>, c: char, sep: spec_fn(char) -> bool, done: Seq<Seq<char>>, current: Seq<char>)
    requires
        fields(s, sep) == done.push(current),
    ensures
        sep(c) ==> fields(s.push(c), sep) == done.push(current).push(Seq::<char>::empty()),
        !sep(c) ==> fields(s.push(c), sep) == done.push(current.push(c)),
{
    let t = s.push(c);
    assert(t.drop_last() =~= s);
    if !sep(c) {
        assert(fields(t, sep) =~= done.push(current.push(c)));
    }
}

/// A separator of the priority list: a comma or white space.
pub open spec fn list_separator() -> spec_fn(char) -> bool {
    |c: char| c == ',' || is_white_space(c)
}

/// The numbers that the fields denote; a field that is no number is skipped.
pub open spec fn listed_values(fs: Seq<Seq<char>>) -> Set<usize> {
    Set::new(|v: usize| exists|i: int| 0 <= i < fs.len() && parse_usize(#[trigger] fs[i]) == Some(v))
}

proof fn lemma_listed_values_push(fs: Seq<Seq<char>>, f: Seq<char>)
    ensures
        listed_values(fs.push(f)) == match parse_usize(f) {
            Some(v) => listed_values(fs).insert(v),
            None => listed_values(fs),
        },
{
    let all = fs.push(f);
    let expected = match parse_usize(f) {
        Some(v) => listed_values(fs).insert(v),
        None => listed_values(fs),
    };
    assert forall|v: usize| listed_values(all).contains(v) <==> expected.contains(v) by {
        if listed_values(all).contains(v) {
            let i = choose|i: int| 0 <= i < all.len() && parse_usize(#[trigger] all[i]) == Some(v);
            if i < fs.len() {
                assert(fs[i] == all[i]);
            }
        }
        if listed_values(fs).contains(v) {
            let i = choose|i: int| 0 <= i < fs.len() && parse_usize(#[trigger] fs[i]) == Some(v);
            assert(all[i] == fs[i]);
        }
        if parse_usize(f) == Some(v) {
            assert(all[fs.len() as int] == f);
        }
    }
    assert(listed_values(all) =~= expected);
}

/// The pids that the user typed: the input, trimmed, is split at commas and white space,
/// and every field that reads as a number counts; the rest is ignored.
pub fn parse_priority_processes(input: &str) -> (pids: HashSet<usize>)
    ensures
        pids@ == listed_values(fields(trimmed(input@), list_separator())),
{
    let chars = chars_of(input);
    let (a, b) = trim_bounds(&chars, 0, chars.len());
    let ghost sep = list_separator();
    let mut pids: HashSet<usize> = HashSet::new();
    let ghost mut done: Seq<Seq<char>> = Seq::empty();
    let mut field_start = a;
    let mut i = a;
    assert(chars@.subrange(0, chars@.len() as int) =~= chars@);
    assert(chars@.subrange(a as int, a as int) =~= Seq::<char>::empty());
    assert(fields(chars@.subrange(a as int, a as int), sep) =~= done.push(chars@.subrange(a as int, a as int)));
    assert(pids@ =~= listed_values(done));
    while i < b
        invariant
            a <= field_start <= i <= b <= chars@.len(),
            sep == list_separator(),
            fields(chars@.subrange(a as int, i as int), sep) == done.push(
                chars@.subrange(field_start as int, i as int),
            ),
            pids@ == listed_values(done),
        decreases b - i,
    {
        let c = chars[i];
        let ghost current = chars@.subrange(field_start as int, i as int);
        proof {
            lemma_fields_step(chars@.subrange(a as int, i as int), c, sep, done, current);
            assert(chars@.subrange(a as int, i as int).push(c) =~= chars@.subrange(a as int, i + 1));
        }
        if c == ',' || white_space(c) {
            let value = parse_usize_in(&chars, field_start, i);
            match value {
                Some(v) => {
                    pids.insert(v);
                },
                None => {},
            }
            proof {
                lemma_listed_values_push(done, current);
                done = done.push(current);
                assert(chars@.subrange(i + 1, i + 1) =~= Seq::<char>::empty());
            }
            field_start = i + 1;
        } else {
            assert(current.push(c) =~= chars@.subrange(field_start as int, i + 1));
        }
        i = i + 1;
    }
    let value = parse_usize_in(&chars, field_start, b);
    match value {
        Some(v) => {
            pids.insert(v);
        },
        None => {},
    }
    proof {
        lemma_listed_values_push(done, chars@.subrange(field_start as int, b as int));
    }
    pids
}

/// The values that `read` finds in the lines `ls`, one line at a time.
pub open spec fn collected<T>(ls: Seq<Seq<char>>, read: spec_fn(Seq<char>) -> Option<T>) -> Set<T> {
    Set::new(|v: T| exists|i: int| 0 <= i < ls.len() && read(#[trigger] ls[i]) == Some(v))
}

proof fn lemma_collected_push<T>(ls: Seq<Seq<char>>, l: Seq<char>, read: spec_fn(Seq<char>) -> Option<T>)
    ensures
        collected(ls.push(l), read) == match read(l) {
            Some(v) => collected(ls, read).insert(v),
            None => collected(ls, read),
        },
{
    let all = ls.push(l);
    let expected = match read(l) {
        Some(v) => collected(ls, read).insert(v),
        None => collected(ls, read),
    };
    assert forall|v: T| collected(all, read).contains(v) <==> expected.contains(v) by {
        if collected(all, read).contains(v) {
            let i = choose|i: int| 0 <= i < all.len() && read(#[trigger] all[i]) == Some(v);
            if i < ls.len() {
                assert(ls[i] == all[i]);
            }
        }
        if collected(ls, read).contains(v) {
            let i = choose|i: int| 0 <= i < ls.len() && read(#[trigger] ls[i]) == Some(v);
            assert(all[i] == ls[i]);
        }
        if read(l) == Some(v) {
            assert(all[ls.len() as int] == l);
        }
    }
    assert(collected(all, read) =~= expected);
}

/// A line break.
pub open spec fn line_break() -> spec_fn(char) -> bool {
    |c: char| c == '\n'
}

/// Whether the (trimmed) line is a setting: not empty and not a `#` comment.
pub open spec fn is_setting(l: Seq<char>) -> bool {
    l.len() > 0 && l[0] != '#'
}

/// Whether `l` holds an `=`.
pub open spec fn has_equals(l: Seq<char>) -> bool {
    exists|i: int| 0 <= i < l.len() && l[i] == '='
}

/// The position of the first `=` in `l`.
pub open spec fn equals_at(l: Seq<char>) -> int {
    choose|i: int| 0 <= i < l.len() && l[i] == '=' && forall|j: int| 0 <= j < i ==> l[j] != '='
}

/// The key of a setting line: what stands before its first `=`, trimmed.
pub open spec fn setting_key(l: Seq<char>) -> Seq<char> {
    trimmed(l.take(equals_at(l)))
}

/// The value of a setting line: what follows its first `=`, trimmed.
pub open spec fn setting_value(l: Seq<char>) -> Seq<char> {
    trimmed(l.skip(equals_at(l) + 1))
}

/// A line of the file as it is read: trimmed, and a setting with an `=`.
pub open spec fn is_keyed(raw: Seq<char>) -> bool {
    is_setting(trimmed(raw)) && has_equals(trimmed(raw))
}

/// The pid that a `priority = <pid>` line marks.
pub open spec fn line_priority(raw: Seq<char>) -> Option<usize> {
    let l = trimmed(raw);
    if is_keyed(raw) && setting_key(l) == "priority"@ {
        parse_usize(setting_value(l))
    } else {
        None
    }
}

/// The name that a `blacklist = <name>` line adds.
pub open spec fn line_blacklist(raw: Seq<char>) -> Option<Seq<char>> {
    let l = trimmed(raw);
    if is_keyed(raw) && setting_key(l) == "blacklist"@ {
        Some(setting_value(l))
    } else {
        None
    }
}

/// What a line is reported for: `(true, key)` for a key that is neither `priority` nor
/// `blacklist`, `(false, line)` for a setting line with no `=`.
pub open spec fn line_issue(raw: Seq<char>) -> Option<(bool, Seq<char>)> {
    let l = trimmed(raw);
    if !is_setting(l) {
        None
    } else if !has_equals(l) {
        Some((false, l))
    } else if setting_key(l) == "priority"@ || setting_key(l) == "blacklist"@ {
        None
    } else {
        Some((true, setting_key(l)))
    }
}

pub open spec fn priority_reader() -> spec_fn(Seq<char>) -> Option<usize> {
    |raw: Seq<char>| line_priority(raw)
}

pub open spec fn blacklist_reader() -> spec_fn(Seq<char>) -> Option<Seq<char>> {
    |raw: Seq<char>| line_blacklist(raw)
}

/// The reports for the lines `ls`, in line order.
pub open spec fn issues_of(ls: Seq<Seq<char>>) -> Seq<(bool, Seq<char>)>
    decreases ls.len(),
{
    if ls.len() == 0 {
        Seq::empty()
    } else {
        let before = issues_of(ls.drop_last());
        match line_issue(ls.last()) {
            Some(issue) => before.push(issue),
            None => before,
        }
    }
}

/// A line of the configuration file that was not understood.
#[derive(Debug)]
pub enum ConfigIssue {
    /// A setting whose key is neither `priority` nor `blacklist`; holds the key.
    UnrecognizedKey(String),
    /// A line that is neither blank, a comment, nor `key = value`; holds the line.
    UnrecognizedLine(String),
}

impl View for ConfigIssue {
    type V = (bool, Seq<char>);

    open spec fn view(&self) -> (bool, Seq<char>) {
        match self {
            ConfigIssue::UnrecognizedKey(key) => (true, key@),
            ConfigIssue::UnrecognizedLine(line) => (false, line@),
        }
    }
}

/// The settings read from a configuration file.
pub struct Config {
    /// Pids from `priority = <pid>` lines.
    pub priority: HashSet<usize>,
    /// Names from `blacklist = <name>` lines, each once.
    pub blacklist: Vec<String>,
    /// The lines that were not understood, in file order.
    pub issues: Vec<ConfigIssue>,
}

/// The names of a list of strings.
pub open spec fn names(list: Seq<String>) -> Seq<Seq<char>> {
    list.map_values(|s: String| s@)
}

/// The reports as values.
pub open spec fn issue_views(list: Seq<ConfigIssue>) -> Seq<(bool, Seq<char>)> {
    list.map_values(|i: ConfigIssue| i@)
}

/// What the configuration holds after reading the lines `ls`.
pub open spec fn reads_lines(config: Config, ls: Seq<Seq<char>>) -> bool {
    &&& config.priority@ == collected(ls, priority_reader())
    &&& names(config.blacklist@).to_set() == collected(ls, blacklist_reader())
    &&& names(config.blacklist@).no_duplicates()
    &&& issue_views(config.issues@) == issues_of(ls)
}

/// Whether `chars[lo..hi]` spells `word`.
fn region_is(chars: &Vec<char>, lo: usize, hi: usize, word: &str) -> (same: bool)
    requires
        lo <= hi <= chars@.len(),
    ensures
        same == (chars@.subrange(lo as int, hi as int) == word@),
{
    let n = word.unicode_len();
    if hi - lo != n {
        return false;
    }
    let mut k: usize = 0;
    while k < n
        invariant
            k <= n,
            n == word@.len(),
            hi - lo == n,
            lo <= hi <= chars@.len(),
            forall|j: int| 0 <= j < k ==> chars@[lo + j] == word@[j],
        decreases n - k,
    {
        if chars[lo + k] != word.get_char(k) {
            assert(chars@.subrange(lo as int, hi as int)[k as int] != word@[k as int]);
            return false;
        }
        k = k + 1;
    }
    assert(chars@.subrange(lo as int, hi as int) =~= word@);
    true
}

/// Adds `name` to `list` unless it is there already.
fn add_name(list: &mut Vec<String>, name: String)
    requires
        names(old(list)@).no_duplicates(),
    ensures
        names(final(list)@).no_duplicates(),
        names(final(list)@).to_set() == names(old(list)@).to_set().insert(name@),
{
    let mut k: usize = 0;
    while k < list.len()
        invariant
            k <= list@.len(),
            list@ == old(list)@,
            names(list@).no_duplicates(),
            forall|j: int| 0 <= j < k ==> list@[j]@ != name@,
        decreases list@.len() - k,
    {
        if list[k] == name {
            assert(names(list@)[k as int] == name@);
            assert(names(list@).to_set() =~= names(list@).to_set().insert(name@));
            return;
        }
        k = k + 1;
    }
    let ghost before = names(list@);
    list.push(name);
    assert(names(list@) =~= before.push(name@));
    proof {
        before.lemma_push_to_set_commute(name@);
    }
    assert forall|i: int, j: int| 0 <= i < j < names(list@).len() implies names(list@)[i] != names(
        list@,
    )[j] by {
        if j == before.len() {
            assert(list@[i]@ != name@);
        }
    }
}

/// Takes in one line, `chars[lo..hi]`, of the file `contents` (whose characters are `chars`).
fn read_line(chars: &Vec<char>, contents: &str, lo: usize, hi: usize, config: &mut Config)
    requires
        chars@ == contents@,
        lo <= hi <= chars@.len(),
        names(old(config).blacklist@).no_duplicates(),
    ensures
        ({
            let raw = chars@.subrange(lo as int, hi as int);
            &&& final(config).priority@ == match line_priority(raw) {
                Some(v) => old(config).priority@.insert(v),
                None => old(config).priority@,
            }
            &&& names(final(config).blacklist@).no_duplicates()
            &&& names(final(config).blacklist@).to_set() == match line_blacklist(raw) {
                Some(name) => names(old(config).blacklist@).to_set().insert(name),
                None => names(old(config).blacklist@).to_set(),
            }
            &&& issue_views(final(config).issues@) == match line_issue(raw) {
                Some(issue) => issue_views(old(config).issues@).push(issue),
                None => issue_views(old(config).issues@),
            }
        }),
{
    let ghost raw = chars@.subrange(lo as int, hi as int);
    let (a, b) = trim_bounds(chars, lo, hi);
    let ghost l = chars@.subrange(a as int, b as int);
    assert(l == trimmed(raw));
    if a == b || chars[a] == '#' {
        assert(!is_setting(l)) by {
            if a < b {
                assert(l[0] == chars@[a as int]);
            }
        }
        return;
    }
    assert(is_setting(l)) by {
        assert(l[0] == chars@[a as int]);
    }
    let mut e = a;
    while e < b && chars[e] != '='
        invariant
            a <= e <= b <= chars@.len(),
            forall|j: int| a <= j < e ==> chars@[j] != '=',
        decreases b - e,
    {
        e = e + 1;
    }
    if e == b {
        assert(!has_equals(l)) by {
            if has_equals(l) {
                let i = choose|i: int| 0 <= i < l.len() && l[i] == '=';
                assert(chars@[a + i] == '=');
            }
        }
        let line = contents.substring_char(a, b).to_owned();
        let ghost before = issue_views(config.issues@);
        config.issues.push(ConfigIssue::UnrecognizedLine(line));
        assert(issue_views(config.issues@) =~= before.push((false, l)));
        return;
    }
    let ghost i0 = e - a;
    assert(l[i0] == '=');
    assert(has_equals(l));
    assert(equals_at(l) == i0) by {
        let k = equals_at(l);
        assert(0 <= k < l.len() && l[k] == '=' && forall|j: int| 0 <= j < k ==> l[j] != '=');
        if k < i0 {
            assert(chars@[a + k] != '=');
        } else if k > i0 {
            assert(l[i0] != '=');
        }
    }
    assert(l.take(i0) =~= chars@.subrange(a as int, e as int));
    assert(l.skip(i0 + 1) =~= chars@.subrange(e + 1, b as int));
    let (ka, kb) = trim_bounds(chars, a, e);
    let (va, vb) = trim_bounds(chars, e + 1, b);
    assert(chars@.subrange(ka as int, kb as int) == setting_key(l));
    assert(chars@.subrange(va as int, vb as int) == setting_value(l));
    proof {
        reveal_strlit("priority");
        reveal_strlit("blacklist");
    }
    if region_is(chars, ka, kb, "priority") {
        let value = parse_usize_in(chars, va, vb);
        match value {
            Some(v) => {
                config.priority.insert(v);
            },
            None => {},
        }
        assert(setting_key(l) != "blacklist"@) by {
            assert("priority"@.len() != "blacklist"@.len());
        }
    } else if region_is(chars, ka, kb, "blacklist") {
        let name = contents.substring_char(va, vb).to_owned();
        add_name(&mut config.blacklist, name);
    } else {
        let key = contents.substring_char(ka, kb).to_owned();
        let ghost before = issue_views(config.issues@);
        config.issues.push(ConfigIssue::UnrecognizedKey(key));
        assert(issue_views(config.issues@) =~= before.push((true, setting_key(l))));
    }
}

/// Reads a configuration file. Each line is trimmed; blank lines and `#` comments are
/// skipped; `priority = <pid>` marks a pid (a value that is no number is ignored);
/// `blacklist = <name>` adds a name; any other key, or a line without `=`, is reported.
/// Lines end at `\n`; a `\r` before it is white space, and an empty last line changes
/// nothing.
pub fn parse_config(contents: &str) -> (config: Config)
    ensures
        reads_lines(config, fields(contents@, line_break())),
{
    let chars = chars_of(contents);
    let ghost brk = line_break();
    let mut config = Config { priority: HashSet::new(), blacklist: Vec::new(), issues: Vec::new() };
    let ghost mut done: Seq<Seq<char>> = Seq::empty();
    let mut line_start: usize = 0;
    let mut i: usize = 0;
    assert(chars@.subrange(0, 0) =~= Seq::<char>::empty());
    assert(fields(chars@.subrange(0, 0), brk) =~= done.push(chars@.subrange(0, 0)));
    assert(config.priority@ =~= collected(done, priority_reader()));
    assert(names(config.blacklist@).to_set() =~= collected(done, blacklist_reader()));
    assert(issue_views(config.issues@) =~= issues_of(done));
    while i < chars.len()
        invariant
            chars@ == contents@,
            line_start <= i <= chars@.len(),
            brk == line_break(),
            fields(chars@.subrange(0, i as int), brk) == done.push(
                chars@.subrange(line_start as int, i as int),
            ),
            reads_lines(config, done),
        decreases chars@.len() - i,
    {
        let c = chars[i];
        let ghost current = chars@.subrange(line_start as int, i as int);
        proof {
            lemma_fields_step(chars@.subrange(0, i as int), c, brk, done, current);
            assert(chars@.subrange(0, i as int).push(c) =~= chars@.subrange(0, i + 1));
        }
        if c == '\n' {
            read_line(&chars, contents, line_start, i, &mut config);
            proof {
                lemma_collected_push(done, current, priority_reader());
                lemma_collected_push(done, current, blacklist_reader());
                assert(done.push(current).drop_last() =~= done);
                done = done.push(current);
                assert(chars@.subrange(i + 1, i + 1) =~= Seq::<char>::empty());
            }
            line_start = i + 1;
        } else {
            assert(current.push(c) =~= chars@.subrange(line_start as int, i + 1));
        }
        i = i + 1;
    }
    let ghost last = chars@.subrange(line_start as int, chars@.len() as int);
    read_line(&chars, contents, line_start, chars.len(), &mut config);
    proof {
        lemma_collected_push(done, last, priority_reader());
        lemma_collected_push(done, last, blacklist_reader());
        assert(done.push(last).drop_last() =~= done);
        assert(chars@.subrange(0, chars@.len() as int) =~= chars@);
    }
    config
}

} // verus!
