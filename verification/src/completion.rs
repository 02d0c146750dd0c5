//! Tab completion: which word is being completed, and with what.
//!
//! Reading directories is the caller's part: `completion_source` says what to
//! read, and `complete` turns what was read into the sorted completions.
use vstd::prelude::*;
use vstd::relations::sorted_by;
use crate::order::{dedup, dedup_strings, sort_strings, str_leq};
use crate::text::{
    chars_of, chars_start_with, has_char, is_ascii_whitespace, is_ascii_ws, is_whitespace, is_ws, join,
    join_strings, lemma_contains_push, lemma_views_push, split_on, split_string, starts_with,
    string_from, trim, trim_chars, views,
};

verus! {

// ───────────────────────────── the word under the cursor ─────────────────────────────

/// Where the last word of `s` begins: after the last ASCII white space.
pub open spec fn word_start(s: Seq<char>) -> nat
    decreases s.len(),
{
    if s.len() == 0 || is_ascii_ws(s.last()) {
        s.len()
    } else {
        word_start(s.drop_last())
    }
}

pub proof fn lemma_word_start_bound(s: Seq<char>)
    ensures
        word_start(s) <= s.len(),
    decreases s.len(),
{
    if s.len() > 0 && !is_ascii_ws(s.last()) {
        lemma_word_start_bound(s.drop_last());
    }
}

/// Splits a line into everything before its last word, and the last word.
fn split_last_word(line: &str) -> (r: (&str, &str))
    ensures
        r.0@ == line@.take(word_start(line@) as int),
        r.1@ == line@.skip(word_start(line@) as int),
        r.0@ + r.1@ == line@,
{
    let v = chars_of(line);
    let mut i = v.len();
    assert(v@.take(i as int) =~= v@);
    while i > 0 && !is_ascii_whitespace(v[i - 1])
        invariant
            i <= v.len(),
            word_start(v@) == word_start(v@.take(i as int)),
        decreases i,
    {
        assert(v@.take(i as int).drop_last() =~= v@.take(i - 1));
        i = i - 1;
    }
    let before = line.substring_char(0, i);
    let word = line.substring_char(i, v.len());
    assert(line@.take(i as int) =~= line@.subrange(0, i as int));
    assert(line@.skip(i as int) =~= line@.subrange(i as int, v.len() as int));
    assert(before@ + word@ =~= line@);
    (before, word)
}

/// Law of the word under the cursor: it is the end of the line, holds no
/// ASCII white space, and begins at the start of the line or right after
/// ASCII white space.
pub proof fn lemma_last_word(line: Seq<char>)
    ensures
        word_start(line) <= line.len(),
        forall|i: int| word_start(line) <= i < line.len() ==> !is_ascii_ws(#[trigger] line[i]),
        word_start(line) == 0 || is_ascii_ws(line[word_start(line) - 1]),
    decreases line.len(),
{
    if line.len() > 0 && !is_ascii_ws(line.last()) {
        let pre = line.drop_last();
        lemma_last_word(pre);
        assert forall|i: int| word_start(line) <= i < line.len() implies !is_ascii_ws(#[trigger] line[i]) by {
            if i < pre.len() {
                assert(line[i] == pre[i]);
            }
        }
        if word_start(line) > 0 {
            assert(line[word_start(line) - 1] == pre[word_start(pre) - 1]);
        }
    } else if line.len() > 0 {
        assert(line[line.len() - 1] == line.last());
    }
}

/// The word being typed: the last word of the line, after its last ASCII
/// white space.
pub fn last_word(line: &str) -> (r: &str)
    ensures
        r@ == line@.skip(word_start(line@) as int),
{
    split_last_word(line).1
}

// ───────────────────────────── command position ─────────────────────────────

/// The commands that take another command as their first argument.
pub open spec fn command_wrappers() -> Seq<Seq<char>> {
    seq!["sudo"@, "env"@, "time"@, "nohup"@, "xargs"@]
}

/// Where the last white-space separated token of `s` begins.
pub open spec fn token_start(s: Seq<char>) -> nat
    decreases s.len(),
{
    if s.len() == 0 || is_ws(s.last()) {
        s.len()
    } else {
        token_start(s.drop_last())
    }
}

proof fn lemma_token_start_bound(s: Seq<char>)
    ensures
        token_start(s) <= s.len(),
    decreases s.len(),
{
    if s.len() > 0 && !is_ws(s.last()) {
        lemma_token_start_bound(s.drop_last());
    }
}

/// `s` without trailing `;` and `&`.
pub open spec fn trim_end_separators(s: Seq<char>) -> Seq<char>
    decreases s.len(),
{
    if s.len() > 0 && (s.last() == ';' || s.last() == '&') {
        trim_end_separators(s.drop_last())
    } else {
        s
    }
}

/// Whether the word after `before` names a command: `before` is blank, ends
/// with a separator (`;`, `&`, `&&`), or its last token is a command wrapper
/// such as `sudo`.
pub open spec fn spec_is_command_position(before: Seq<char>) -> bool {
    let t = trim(before);
    ||| t.len() == 0
    ||| t.last() == ';'
    ||| t.last() == '&'
    ||| command_wrappers().contains(trim_end_separators(t.skip(token_start(t) as int)))
}

/// The command wrappers.
fn wrapper_names() -> (r: Vec<String>)
    ensures
        views(r@) == command_wrappers(),
{
    let r = vec![
        String::from_str("sudo"),
        String::from_str("env"),
        String::from_str("time"),
        String::from_str("nohup"),
        String::from_str("xargs"),
    ];
    assert(views(r@) =~= command_wrappers());
    r
}

/// Whether `x` is one of `v`.
pub fn contains_string(v: &Vec<String>, x: &String) -> (r: bool)
    ensures
        r == views(v@).contains(x@),
{
    let mut i: usize = 0;
    while i < v.len()
        invariant
            i <= v.len(),
            forall|k: int| 0 <= k < i ==> views(v@)[k] != x@,
        decreases v.len() - i,
    {
        if v[i] == *x {
            assert(views(v@)[i as int] == x@);
            return true;
        }
        i = i + 1;
    }
    false
}

/// Decides whether the word after `before` is a command name or an argument.
fn is_command_position(before: &str) -> (r: bool)
    ensures
        r == spec_is_command_position(before@),
{
    let chars = chars_of(before);
    let t = trim_chars(&chars);
    let n = t.len();
    if n == 0 {
        return true;
    }
    if t[n - 1] == ';' || t[n - 1] == '&' {
        return true;
    }
    let mut s = n;
    assert(t@.take(n as int) =~= t@);
    while s > 0 && !is_whitespace(t[s - 1])
        invariant
            s <= n == t.len(),
            token_start(t@) == token_start(t@.take(s as int)),
        decreases s,
    {
        assert(t@.take(s as int).drop_last() =~= t@.take(s - 1));
        s = s - 1;
    }
    proof {
        lemma_token_start_bound(t@.take(s as int));
    }
    let mut e = n;
    assert(t@.skip(s as int).take((e - s) as int) =~= t@.skip(s as int));
    while e > s && (t[e - 1] == ';' || t[e - 1] == '&')
        invariant
            s <= e <= n == t.len(),
            trim_end_separators(t@.skip(s as int)) == trim_end_separators(t@.subrange(s as int, e as int)),
        decreases e,
    {
        assert(t@.subrange(s as int, e as int).drop_last() =~= t@.subrange(s as int, e - 1));
        e = e - 1;
    }
    assert(t@.subrange(s as int, e as int).len() == 0 || !(t@.subrange(s as int, e as int).last() == ';' || t@.subrange(s as int, e as int).last() == '&'));
    let mut tok: Vec<char> = Vec::new();
    let mut k = s;
    while k < e
        invariant
            s <= k <= e <= n == t.len(),
            tok@ == t@.subrange(s as int, k as int),
        decreases e - k,
    {
        tok.push(t[k]);
        assert(t@.subrange(s as int, k as int).push(t@[k as int]) =~= t@.subrange(s as int, k + 1));
        k = k + 1;
    }
    let last = string_from(&tok);
    let wrappers = wrapper_names();
    contains_string(&wrappers, &last)
}

// ───────────────────────────── command names ─────────────────────────────

/// The built-in commands, always offered regardless of `PATH`.
pub open spec fn builtin_names() -> Seq<Seq<char>> {
    seq!["ls"@, "cat"@, "cp"@, "mv"@, "rm"@, "cd"@, "pwd"@, "echo"@, "exit"@, "mkdir"@, "clear"@]
}

/// The built-in commands.
fn builtins() -> (r: Vec<String>)
    ensures
        views(r@) == builtin_names(),
{
    let r = vec![
        String::from_str("ls"),
        String::from_str("cat"),
        String::from_str("cp"),
        String::from_str("mv"),
        String::from_str("rm"),
        String::from_str("cd"),
        String::from_str("pwd"),
        String::from_str("echo"),
        String::from_str("exit"),
        String::from_str("mkdir"),
        String::from_str("clear"),
    ];
    assert(views(r@) =~= builtin_names());
    r
}

/// The names of `names` that begin with `prefix`, in order.
pub open spec fn with_prefix(names: Seq<Seq<char>>, prefix: Seq<char>) -> Seq<Seq<char>>
    decreases names.len(),
{
    if names.len() == 0 {
        seq![]
    } else {
        let rest = with_prefix(names.drop_last(), prefix);
        if starts_with(names.last(), prefix) {
            rest.push(names.last())
        } else {
            rest
        }
    }
}

/// The view of directory entries: each name with a flag.
pub open spec fn entries_view(v: Seq<(String, bool)>) -> Seq<(Seq<char>, bool)> {
    v.map_values(|p: (String, bool)| (p.0@, p.1))
}

/// The names of the executable entries among `e`, in order.
pub open spec fn exec_names(e: Seq<(Seq<char>, bool)>) -> Seq<Seq<char>>
    decreases e.len(),
{
    if e.len() == 0 {
        seq![]
    } else if e.last().1 {
        exec_names(e.drop_last()).push(e.last().0)
    } else {
        exec_names(e.drop_last())
    }
}

/// The commands found on `PATH` that begin with `prefix`, given every entry
/// of the `PATH` directories in search order with whether it is an executable
/// file: each name that some executable entry has, once, in the order of
/// its first executable entry.
pub open spec fn path_commands(found: Seq<(Seq<char>, bool)>, prefix: Seq<char>) -> Seq<Seq<char>>
    decreases found.len(),
{
    if found.len() == 0 {
        seq![]
    } else {
        let rest = path_commands(found.drop_last(), prefix);
        let (name, executable) = found.last();
        if starts_with(name, prefix) && executable && !exec_names(found.drop_last()).contains(name) {
            rest.push(name)
        } else {
            rest
        }
    }
}

/// Collects the command names that begin with `prefix`: the built-ins first,
/// then those that `found` lists (every entry of the `PATH` directories in
/// search order, each with whether it is an executable file).
fn complete_commands(prefix: &str, found: &Vec<(String, bool)>) -> (r: Vec<String>)
    ensures
        views(r@) == with_prefix(builtin_names(), prefix@) + path_commands(entries_view(found@), prefix@),
{
    let p = chars_of(prefix);
    let names = builtins();
    let mut matches: Vec<String> = Vec::new();
    let mut i: usize = 0;
    assert(views(names@).take(0) =~= Seq::<Seq<char>>::empty());
    while i < names.len()
        invariant
            i <= names.len(),
            views(names@) == builtin_names(),
            p@ == prefix@,
            views(matches@) == with_prefix(views(names@).take(i as int), p@),
        decreases names.len() - i,
    {
        assert(views(names@).take(i + 1).drop_last() =~= views(names@).take(i as int));
        let c = chars_of(names[i].as_str());
        if chars_start_with(&c, &p) {
            let x = names[i].clone();
            matches.push(x);
            assert(views(matches@) =~= with_prefix(views(names@).take(i + 1), p@));
        }
        i = i + 1;
    }
    assert(views(names@).take(names.len() as int) =~= views(names@));
    let ghost head = views(matches@);
    let ghost ev = entries_view(found@);
    let mut seen: Vec<String> = Vec::new();
    let mut j: usize = 0;
    assert(ev.take(0) =~= Seq::<(Seq<char>, bool)>::empty());
    assert(views(matches@) =~= head + path_commands(ev.take(0), p@));
    while j < found.len()
        invariant
            j <= found.len(),
            p@ == prefix@,
            ev == entries_view(found@),
            views(matches@) == head + path_commands(ev.take(j as int), p@),
            forall|n: Seq<char>|
                starts_with(n, p@) ==> (views(seen@).contains(n) <==> exec_names(
                    ev.take(j as int),
                ).contains(n)),
        decreases found.len() - j,
    {
        let ghost t = ev.take(j + 1);
        assert(t.drop_last() =~= ev.take(j as int));
        assert(t.last() == (found@[j as int].0@, found@[j as int].1));
        let name = &found[j].0;
        let c = chars_of(name.as_str());
        let ghost pre_seen = views(seen@);
        let ghost names_pre = exec_names(ev.take(j as int));
        if found[j].1 {
            assert(exec_names(t) =~= names_pre.push(name@));
        } else {
            assert(exec_names(t) == names_pre);
        }
        if chars_start_with(&c, &p) && found[j].1 {
            if !contains_string(&seen, name) {
                assert(!names_pre.contains(name@));
                let x = name.clone();
                proof { lemma_views_push(seen@, x); }
                seen.push(x);
                let y = name.clone();
                proof { lemma_views_push(matches@, y); }
                matches.push(y);
                assert(views(matches@) =~= head + path_commands(t, p@));
            } else {
                assert(names_pre.contains(name@));
                assert(views(matches@) =~= head + path_commands(t, p@));
            }
            proof {
                assert forall|n: Seq<char>| starts_with(n, p@) implies (views(seen@).contains(n)
                    <==> exec_names(t).contains(n)) by {
                    lemma_contains_push(names_pre, name@, n);
                    lemma_contains_push(pre_seen, name@, n);
                }
            }
        } else {
            assert(views(matches@) =~= head + path_commands(t, p@));
            proof {
                assert forall|n: Seq<char>| starts_with(n, p@) implies (views(seen@).contains(n)
                    <==> exec_names(t).contains(n)) by {
                    if found[j as int].1 {
                        lemma_contains_push(names_pre, name@, n);
                    }
                }
            }
        }
        j = j + 1;
    }
    assert(ev.take(found.len() as int) =~= ev);
    matches
}

// ───────────────────────────── paths ─────────────────────────────

/// The length of the directory part of a path prefix: up to and including
/// its last `/`, or nothing.
pub open spec fn dir_part_len(s: Seq<char>) -> nat
    decreases s.len(),
{
    if s.len() == 0 {
        0
    } else if s.last() == '/' {
        s.len()
    } else {
        dir_part_len(s.drop_last())
    }
}

proof fn lemma_dir_part_len_bound(s: Seq<char>)
    ensures
        dir_part_len(s) <= s.len(),
    decreases s.len(),
{
    if s.len() > 0 && s.last() != '/' {
        lemma_dir_part_len_bound(s.drop_last());
    }
}

/// The completions of a path for the entries of its directory, each given
/// with whether it is a directory: hidden entries only where the prefix
/// itself begins with `.`, each entry that begins with the file prefix,
/// written after the directory part, with `/` appended to directories.
pub open spec fn path_matches(entries: Seq<(Seq<char>, bool)>, dir: Seq<char>, file_prefix: Seq<char>) -> Seq<Seq<char>>
    decreases entries.len(),
{
    if entries.len() == 0 {
        seq![]
    } else {
        let rest = path_matches(entries.drop_last(), dir, file_prefix);
        let (name, is_dir) = entries.last();
        let hidden = name.len() > 0 && name[0] == '.' && !(file_prefix.len() > 0 && file_prefix[0] == '.');
        if !hidden && starts_with(name, file_prefix) {
            rest.push(if is_dir { dir + name + seq!['/'] } else { dir + name })
        } else {
            rest
        }
    }
}

/// Splits a path prefix into its directory part and its file-name prefix.
fn split_dir(prefix: &Vec<char>) -> (r: (Vec<char>, Vec<char>))
    ensures
        r.0@ == prefix@.take(dir_part_len(prefix@) as int),
        r.1@ == prefix@.skip(dir_part_len(prefix@) as int),
{
    let mut d = prefix.len();
    assert(prefix@.take(d as int) =~= prefix@);
    while d > 0 && prefix[d - 1] != '/'
        invariant
            d <= prefix.len(),
            dir_part_len(prefix@) == dir_part_len(prefix@.take(d as int)),
        decreases d,
    {
        assert(prefix@.take(d as int).drop_last() =~= prefix@.take(d - 1));
        d = d - 1;
    }
    let mut dir: Vec<char> = Vec::new();
    let mut file: Vec<char> = Vec::new();
    let mut k: usize = 0;
    while k < prefix.len()
        invariant
            k <= prefix.len(),
            d <= prefix.len(),
            k <= d ==> dir@ == prefix@.take(k as int) && file@.len() == 0,
            k > d ==> dir@ == prefix@.take(d as int) && file@ == prefix@.subrange(d as int, k as int),
        decreases prefix.len() - k,
    {
        if k < d {
            dir.push(prefix[k]);
            assert(prefix@.take(k + 1) =~= prefix@.take(k as int).push(prefix@[k as int]));
        } else {
            file.push(prefix[k]);
            assert(prefix@.subrange(d as int, k + 1) =~= prefix@.subrange(d as int, k as int).push(prefix@[k as int]));
        }
        k = k + 1;
    }
    assert(prefix@.subrange(d as int, prefix.len() as int) =~= prefix@.skip(d as int));
    assert(d == prefix.len() ==> prefix@.skip(d as int) =~= Seq::<char>::empty());
    (dir, file)
}

/// Collects the completions of a path prefix from the entries of its
/// directory, each given with whether it is a directory.
fn complete_path(prefix: &str, entries: &Vec<(String, bool)>) -> (r: Vec<String>)
    ensures
        views(r@) == path_matches(
            entries_view(entries@),
            prefix@.take(dir_part_len(prefix@) as int),
            prefix@.skip(dir_part_len(prefix@) as int),
        ),
{
    let p = chars_of(prefix);
    let (dir, file) = split_dir(&p);
    let dir_s = string_from(&dir);
    let hidden_ok = file.len() > 0 && file[0] == '.';
    let ghost ev = entries_view(entries@);
    let mut matches: Vec<String> = Vec::new();
    let mut j: usize = 0;
    assert(ev.take(0) =~= Seq::<(Seq<char>, bool)>::empty());
    while j < entries.len()
        invariant
            j <= entries.len(),
            ev == entries_view(entries@),
            dir_s@ == dir@,
            hidden_ok == (file@.len() > 0 && file@[0] == '.'),
            views(matches@) == path_matches(ev.take(j as int), dir@, file@),
        decreases entries.len() - j,
    {
        let ghost t = ev.take(j + 1);
        assert(t.drop_last() =~= ev.take(j as int));
        assert(t.last() == (entries@[j as int].0@, entries@[j as int].1));
        let name = &entries[j].0;
        let c = chars_of(name.as_str());
        let hidden = c.len() > 0 && c[0] == '.' && !hidden_ok;
        if !hidden && chars_start_with(&c, &file) {
            let mut full = dir_s.clone();
            full.append(name.as_str());
            if entries[j].1 {
                full.append("/");
                proof { reveal_strlit("/"); }
                assert(full@ =~= dir@ + name@ + seq!['/']);
            }
            matches.push(full);
            assert(views(matches@) =~= path_matches(t, dir@, file@));
        } else {
            assert(views(matches@) =~= path_matches(t, dir@, file@));
        }
        j = j + 1;
    }
    assert(ev.take(entries.len() as int) =~= ev);
    matches
}

// ───────────────────────────── completion ─────────────────────────────

/// What the caller must read for a completion.
#[derive(Debug, PartialEq, Eq)]
pub enum CompletionSource {
    /// Every entry of every `PATH` directory (see [`full_path`]) in search
    /// order, each with whether it is an executable file.
    Commands,
    /// Every entry of this directory, each with whether it is a directory.
    Entries(String),
}

/// Whether the word being typed on `line` is a command name.
pub open spec fn completes_command(line: Seq<char>) -> bool {
    spec_is_command_position(line.take(word_start(line) as int))
}

/// The directory whose entries complete a path prefix: its directory part,
/// or `.` when it has none.
pub open spec fn search_dir(word: Seq<char>) -> Seq<char> {
    if dir_part_len(word) == 0 {
        seq!['.']
    } else {
        word.take(dir_part_len(word) as int)
    }
}

/// Says what must be read to complete `line`: the `PATH` directories when
/// the last word is in command position, else the directory of the path
/// being typed.
pub fn completion_source(line: &str) -> (r: CompletionSource)
    ensures
        completes_command(line@) ==> r == CompletionSource::Commands,
        !completes_command(line@) ==> (r matches CompletionSource::Entries(d) && d@ == search_dir(
            line@.skip(word_start(line@) as int),
        )),
{
    let (before, word) = split_last_word(line);
    proof {
        lemma_word_start_bound(line@);
        lemma_dir_part_len_bound(word@);
    }
    if is_command_position(before) {
        CompletionSource::Commands
    } else {
        let w = chars_of(word);
        let (dir, _file) = split_dir(&w);
        if dir.len() == 0 {
            let r = String::from_str(".");
            proof { reveal_strlit("."); }
            assert(r@ =~= seq!['.']);
            CompletionSource::Entries(r)
        } else {
            CompletionSource::Entries(string_from(&dir))
        }
    }
}

/// The completions of `line` given what [`completion_source`] asked for.
pub open spec fn spec_complete(line: Seq<char>, found: Seq<(Seq<char>, bool)>) -> Seq<Seq<char>> {
    let word = line.skip(word_start(line) as int);
    if completes_command(line) {
        dedup(
            (with_prefix(builtin_names(), word) + path_commands(found, word)).sort_by(str_leq()),
        )
    } else {
        path_matches(found, word.take(dir_part_len(word) as int), word.skip(dir_part_len(word) as int)).sort_by(
            str_leq(),
        )
    }
}

/// Returns all completions for `line`, the text typed so far.
///
/// The first word of a line, of a command after a separator (`;`, `&`,
/// `&&`) or after a command wrapper such as `sudo` completes to command
/// names: the built-ins and the executables that `found` lists, sorted and
/// without repeats. Any other word completes to the entries of its
/// directory that `found` lists, sorted, with `/` after directories.
pub fn complete(line: &str, found: &Vec<(String, bool)>) -> (r: Vec<String>)
    ensures
        views(r@) == spec_complete(line@, entries_view(found@)),
{
    let (before, word) = split_last_word(line);
    if is_command_position(before) {
        let matches = complete_commands(word, found);
        let sorted = sort_strings(matches);
        dedup_strings(sorted)
    } else {
        let matches = complete_path(word, found);
        sort_strings(matches)
    }
}

/// Whether every string of `s` begins with `p`.
pub open spec fn all_start_with(s: Seq<Seq<char>>, p: Seq<char>) -> bool {
    forall|k: int| 0 <= k < s.len() ==> starts_with(#[trigger] s[k], p)
}

proof fn lemma_with_prefix_starts(names: Seq<Seq<char>>, p: Seq<char>)
    ensures
        all_start_with(with_prefix(names, p), p),
    decreases names.len(),
{
    if names.len() > 0 {
        lemma_with_prefix_starts(names.drop_last(), p);
    }
}

proof fn lemma_path_commands_start(found: Seq<(Seq<char>, bool)>, p: Seq<char>)
    ensures
        all_start_with(path_commands(found, p), p),
    decreases found.len(),
{
    if found.len() > 0 {
        lemma_path_commands_start(found.drop_last(), p);
    }
}

proof fn lemma_path_matches_start(entries: Seq<(Seq<char>, bool)>, dir: Seq<char>, fp: Seq<char>)
    ensures
        all_start_with(path_matches(entries, dir, fp), dir + fp),
    decreases entries.len(),
{
    if entries.len() > 0 {
        lemma_path_matches_start(entries.drop_last(), dir, fp);
        let (name, is_dir) = entries.last();
        if starts_with(name, fp) {
            let full = if is_dir { dir + name + seq!['/'] } else { dir + name };
            assert(full.take((dir + fp).len() as int) =~= dir + fp);
        }
    }
}

proof fn lemma_dedup_subset(s: Seq<Seq<char>>, p: Seq<char>)
    requires
        all_start_with(s, p),
    ensures
        all_start_with(dedup(s), p),
    decreases s.len(),
{
    if s.len() > 1 {
        lemma_dedup_subset(s.drop_last(), p);
    }
}

proof fn lemma_sort_starts(s: Seq<Seq<char>>, p: Seq<char>)
    requires
        all_start_with(s, p),
    ensures
        all_start_with(s.sort_by(str_leq()), p),
{
    crate::order::lemma_str_leq_total();
    s.lemma_sort_by_ensures(str_leq());
    let t = s.sort_by(str_leq());
    assert forall|k: int| 0 <= k < t.len() implies starts_with(#[trigger] t[k], p) by {
        assert(t.contains(t[k]));
        assert(s.contains(t[k]));
    }
}

/// Law of completion: every completion offered for a line begins with the
/// word being typed, so applying one only appends to the line.
pub proof fn lemma_completions_extend_word(line: Seq<char>, found: Seq<(Seq<char>, bool)>)
    ensures
        all_start_with(spec_complete(line, found), line.skip(word_start(line) as int)),
{
    let word = line.skip(word_start(line) as int);
    if completes_command(line) {
        let a = with_prefix(builtin_names(), word);
        let b = path_commands(found, word);
        lemma_with_prefix_starts(builtin_names(), word);
        lemma_path_commands_start(found, word);
        assert(all_start_with(a + b, word)) by {
            assert forall|k: int| 0 <= k < (a + b).len() implies starts_with(#[trigger] (a + b)[k], word) by {
                if k < a.len() {
                    assert((a + b)[k] == a[k]);
                } else {
                    assert((a + b)[k] == b[k - a.len()]);
                }
            }
        }
        lemma_sort_starts(a + b, word);
        lemma_dedup_subset((a + b).sort_by(str_leq()), word);
    } else {
        let d = dir_part_len(word);
        lemma_dir_part_len_bound(word);
        lemma_path_matches_start(found, word.take(d as int), word.skip(d as int));
        assert(word.take(d as int) + word.skip(d as int) =~= word);
        lemma_sort_starts(path_matches(found, word.take(d as int), word.skip(d as int)), word);
    }
}

/// Law of completion order: the completions come sorted; command
/// completions name each command once, though a name may be both a builtin
/// and a file on the search path, or lie in several of its directories.
pub proof fn lemma_completions_sorted(line: Seq<char>, found: Seq<(Seq<char>, bool)>)
    ensures
        sorted_by(spec_complete(line, found), str_leq()),
        completes_command(line) ==> spec_complete(line, found).no_duplicates(),
{
    let word = line.skip(word_start(line) as int);
    crate::order::lemma_str_leq_total();
    if completes_command(line) {
        let all = with_prefix(builtin_names(), word) + path_commands(found, word);
        all.lemma_sort_by_ensures(str_leq());
        crate::order::lemma_dedup_sorted_distinct(all.sort_by(str_leq()));
    } else {
        let d = dir_part_len(word);
        path_matches(found, word.take(d as int), word.skip(d as int)).lemma_sort_by_ensures(str_leq());
    }
}

/// The names that keep a prefix are those of the list that have it.
proof fn lemma_with_prefix_contains(names: Seq<Seq<char>>, p: Seq<char>, n: Seq<char>)
    ensures
        with_prefix(names, p).contains(n) == (starts_with(n, p) && names.contains(n)),
    decreases names.len(),
{
    if names.len() > 0 {
        let pre = names.drop_last();
        lemma_with_prefix_contains(pre, p, n);
        if starts_with(names.last(), p) {
            crate::text::lemma_contains_push(with_prefix(pre, p), names.last(), n);
        }
        crate::text::lemma_contains_push(pre, names.last(), n);
        assert(pre.push(names.last()) =~= names);
    }
}

/// The commands on the search path are the names with the prefix that some
/// executable entry has.
proof fn lemma_path_commands_contains(found: Seq<(Seq<char>, bool)>, p: Seq<char>, n: Seq<char>)
    ensures
        path_commands(found, p).contains(n) == (starts_with(n, p) && exec_names(found).contains(n)),
    decreases found.len(),
{
    if found.len() > 0 {
        let pre = found.drop_last();
        let (name, executable) = found.last();
        lemma_path_commands_contains(pre, p, n);
        lemma_path_commands_contains(pre, p, name);
        if starts_with(name, p) && executable && !exec_names(pre).contains(name) {
            crate::text::lemma_contains_push(path_commands(pre, p), name, n);
        }
        if executable {
            crate::text::lemma_contains_push(exec_names(pre), name, n);
        }
    }
}

/// The directory part of `dir + fp` is `dir`, when `dir` is empty or ends
/// with `/` and `fp` holds no `/`.
proof fn lemma_dir_part_of(dir: Seq<char>, fp: Seq<char>)
    requires
        dir.len() == 0 || dir.last() == '/',
        forall|i: int| 0 <= i < fp.len() ==> fp[i] != '/',
    ensures
        dir_part_len(dir + fp) == dir.len(),
    decreases fp.len(),
{
    if fp.len() == 0 {
        assert(dir + fp =~= dir);
        if dir.len() > 0 {
            assert(dir[dir.len() - 1] == '/');
        }
    } else {
        let pre = fp.drop_last();
        lemma_dir_part_of(dir, pre);
        assert((dir + fp).drop_last() =~= dir + pre);
        assert((dir + fp).last() == fp[fp.len() - 1]);
    }
}

/// What `path_matches` offers: exactly the shown forms of the entries that
/// qualify.
proof fn lemma_path_matches_members(entries: Seq<(Seq<char>, bool)>, dir: Seq<char>, fp: Seq<char>, x: Seq<char>)
    ensures
        path_matches(entries, dir, fp).contains(x) <==> exists|k: int|
            #![trigger entries[k]]
            0 <= k < entries.len() && !(entries[k].0.len() > 0 && entries[k].0[0] == '.' && !(fp.len() > 0 && fp[0]
                == '.')) && starts_with(entries[k].0, fp) && x == (if entries[k].1 {
                dir + entries[k].0 + seq!['/']
            } else {
                dir + entries[k].0
            }),
    decreases entries.len(),
{
    if entries.len() > 0 {
        let pre = entries.drop_last();
        lemma_path_matches_members(pre, dir, fp, x);
        let (name, is_dir) = entries.last();
        let hidden = name.len() > 0 && name[0] == '.' && !(fp.len() > 0 && fp[0] == '.');
        let shown = if is_dir { dir + name + seq!['/'] } else { dir + name };
        if !hidden && starts_with(name, fp) {
            lemma_contains_push(path_matches(pre, dir, fp), shown, x);
        }
        let n = entries.len() - 1;
        if exists|k: int|
            #![trigger entries[k]]
            0 <= k < entries.len() && !(entries[k].0.len() > 0 && entries[k].0[0] == '.' && !(fp.len() > 0 && fp[0]
                == '.')) && starts_with(entries[k].0, fp) && x == (if entries[k].1 {
                dir + entries[k].0 + seq!['/']
            } else {
                dir + entries[k].0
            }) {
            let k = choose|k: int|
                #![trigger entries[k]]
                0 <= k < entries.len() && !(entries[k].0.len() > 0 && entries[k].0[0] == '.' && !(fp.len() > 0
                    && fp[0] == '.')) && starts_with(entries[k].0, fp) && x == (if entries[k].1 {
                    dir + entries[k].0 + seq!['/']
                } else {
                    dir + entries[k].0
                });
            if k < n {
                assert(pre[k] == entries[k]);
            } else {
                assert(entries[k] == entries.last());
            }
        }
        if exists|k: int|
            #![trigger pre[k]]
            0 <= k < pre.len() && !(pre[k].0.len() > 0 && pre[k].0[0] == '.' && !(fp.len() > 0 && fp[0] == '.'))
                && starts_with(pre[k].0, fp) && x == (if pre[k].1 {
                dir + pre[k].0 + seq!['/']
            } else {
                dir + pre[k].0
            }) {
            let k = choose|k: int|
                #![trigger pre[k]]
                0 <= k < pre.len() && !(pre[k].0.len() > 0 && pre[k].0[0] == '.' && !(fp.len() > 0 && fp[0] == '.'))
                    && starts_with(pre[k].0, fp) && x == (if pre[k].1 {
                    dir + pre[k].0 + seq!['/']
                } else {
                    dir + pre[k].0
                });
            assert(entries[k] == pre[k]);
        }
        if !hidden && starts_with(name, fp) && x == shown {
            assert(entries[n] == entries.last());
        }
    }
}

/// Law of path completion: where the word being completed is an argument,
/// split as a directory part `dir` (empty or ending in `/`) and a file-name
/// prefix `fp` (no `/`), the completions are exactly the entries of that
/// directory whose names begin with `fp`, written `dir + name`, with a `/`
/// after directories; names beginning with `.` only when `fp` does. An entry
/// whose name equals `fp` is offered too.
pub proof fn lemma_path_completions(
    line: Seq<char>,
    found: Seq<(Seq<char>, bool)>,
    dir: Seq<char>,
    fp: Seq<char>,
    x: Seq<char>,
)
    requires
        !completes_command(line),
        line.skip(word_start(line) as int) == dir + fp,
        dir.len() == 0 || dir.last() == '/',
        forall|i: int| 0 <= i < fp.len() ==> fp[i] != '/',
    ensures
        spec_complete(line, found).contains(x) <==> exists|k: int|
            #![trigger found[k]]
            0 <= k < found.len() && !(found[k].0.len() > 0 && found[k].0[0] == '.' && !(fp.len() > 0 && fp[0]
                == '.')) && starts_with(found[k].0, fp) && x == (if found[k].1 {
                dir + found[k].0 + seq!['/']
            } else {
                dir + found[k].0
            }),
{
    broadcast use vstd::seq_lib::group_to_multiset_ensures;

    let word = line.skip(word_start(line) as int);
    lemma_dir_part_of(dir, fp);
    assert(word.take(dir.len() as int) =~= dir);
    assert(word.skip(dir.len() as int) =~= fp);
    let m = path_matches(found, dir, fp);
    crate::order::lemma_str_leq_total();
    m.lemma_sort_by_ensures(str_leq());
    assert(m.sort_by(str_leq()).contains(x) == m.contains(x)) by {
        assert(m.sort_by(str_leq()).to_multiset().count(x) == m.to_multiset().count(x));
    }
    lemma_path_matches_members(found, dir, fp, x);
}

/// Law of where path completion looks: with the word split as a directory
/// part `dir` (empty or ending in `/`) and a file-name prefix `fp` (no `/`),
/// the directory read is `dir`, or `.` when `dir` is empty.
pub proof fn lemma_search_dir(dir: Seq<char>, fp: Seq<char>)
    requires
        dir.len() == 0 || dir.last() == '/',
        forall|i: int| 0 <= i < fp.len() ==> fp[i] != '/',
    ensures
        search_dir(dir + fp) == (if dir.len() == 0 {
            seq!['.']
        } else {
            dir
        }),
{
    lemma_dir_part_of(dir, fp);
    assert((dir + fp).take(dir.len() as int) =~= dir);
}

/// Law of command completion: a name is offered exactly when it begins
/// with the word and is a builtin or the name of some executable file on
/// the search path (wherever that file lies in it, and whatever other
/// entries of that name there are).
pub proof fn lemma_command_completions(line: Seq<char>, found: Seq<(Seq<char>, bool)>, n: Seq<char>)
    requires
        completes_command(line),
    ensures
        spec_complete(line, found).contains(n) == (starts_with(n, line.skip(word_start(line) as int)) && (
        builtin_names().contains(n) || exec_names(found).contains(n))),
{
    broadcast use vstd::seq_lib::group_to_multiset_ensures;

    let word = line.skip(word_start(line) as int);
    let a = with_prefix(builtin_names(), word);
    let b = path_commands(found, word);
    let all = a + b;
    crate::order::lemma_str_leq_total();
    all.lemma_sort_by_ensures(str_leq());
    let sorted = all.sort_by(str_leq());
    crate::order::lemma_dedup_contains(sorted, n);
    assert(sorted.contains(n) == all.contains(n)) by {
        assert(sorted.to_multiset().count(n) == all.to_multiset().count(n));
    }
    lemma_with_prefix_contains(builtin_names(), word, n);
    lemma_path_commands_contains(found, word, n);
    assert(all.contains(n) == (a.contains(n) || b.contains(n))) by {
        if all.contains(n) {
            let k = choose|k: int| 0 <= k < all.len() && all[k] == n;
            if k < a.len() {
                assert(a[k] == n);
            } else {
                assert(b[k - a.len()] == n);
            }
        }
        if a.contains(n) {
            let k = choose|k: int| 0 <= k < a.len() && a[k] == n;
            assert(all[k] == n);
        }
        if b.contains(n) {
            let k = choose|k: int| 0 <= k < b.len() && b[k] == n;
            assert(all[a.len() + k] == n);
        }
    }
}

// ───────────────────────────── PATH ─────────────────────────────

/// System directories that may be missing from a login `PATH` but hold
/// essential tools.
pub open spec fn extra_path() -> Seq<Seq<char>> {
    seq!["/usr/local/sbin"@, "/usr/local/bin"@, "/usr/sbin"@, "/usr/bin"@, "/sbin"@, "/bin"@]
}

/// `dirs` followed by each of `extras` that is not yet among them.
pub open spec fn add_missing(dirs: Seq<Seq<char>>, extras: Seq<Seq<char>>) -> Seq<Seq<char>>
    decreases extras.len(),
{
    if extras.len() == 0 {
        dirs
    } else {
        let d = add_missing(dirs, extras.drop_last());
        if d.contains(extras.last()) {
            d
        } else {
            d.push(extras.last())
        }
    }
}

/// Each directory of `dirs` at its first occurrence, in order.
pub open spec fn distinct_dirs(dirs: Seq<Seq<char>>) -> Seq<Seq<char>> {
    add_missing(seq![], dirs)
}

/// The directories of the search path: those of `base`, each once, in the
/// order of their first occurrence, then the system directories that `base`
/// lacks.
pub open spec fn full_path_dirs(base: Seq<char>) -> Seq<Seq<char>> {
    add_missing(distinct_dirs(split_on(base, ':')), extra_path())
}

/// The search path: its directories joined with `:`.
pub open spec fn spec_full_path(base: Seq<char>) -> Seq<char> {
    join(full_path_dirs(base), seq![':'])
}

/// The extra directories.
fn extra_dirs() -> (r: Vec<String>)
    ensures
        views(r@) == extra_path(),
{
    let r = vec![
        String::from_str("/usr/local/sbin"),
        String::from_str("/usr/local/bin"),
        String::from_str("/usr/sbin"),
        String::from_str("/usr/bin"),
        String::from_str("/sbin"),
        String::from_str("/bin"),
    ];
    assert(views(r@) =~= extra_path());
    r
}

/// Builds the deduplicated search path from the value of `PATH` (empty when
/// unset): its directories, each once, then each system directory it lacks,
/// joined with `:`. No directory occurs twice in it.
pub fn full_path(base: &str) -> (r: String)
    ensures
        r@ == spec_full_path(base@),
        split_on(r@, ':') == full_path_dirs(base@),
        split_on(r@, ':').no_duplicates(),
{
    let parts = split_string(base, ':');
    let mut dirs: Vec<String> = Vec::new();
    let mut k: usize = 0;
    assert(views(parts@).take(0) =~= Seq::<Seq<char>>::empty());
    assert(views(dirs@) =~= Seq::<Seq<char>>::empty());
    while k < parts.len()
        invariant
            k <= parts.len(),
            views(parts@) == split_on(base@, ':'),
            views(dirs@) == add_missing(seq![], views(parts@).take(k as int)),
        decreases parts.len() - k,
    {
        assert(views(parts@).take(k + 1).drop_last() =~= views(parts@).take(k as int));
        assert(views(parts@).take(k + 1).last() == parts@[k as int]@);
        if !contains_string(&dirs, &parts[k]) {
            let ghost before = views(dirs@);
            dirs.push(parts[k].clone());
            assert(views(dirs@) =~= before.push(parts@[k as int]@));
        }
        k = k + 1;
    }
    assert(views(parts@).take(parts.len() as int) =~= views(parts@));
    let extras = extra_dirs();
    let mut i: usize = 0;
    assert(extra_path().take(0) =~= Seq::<Seq<char>>::empty());
    while i < extras.len()
        invariant
            i <= extras.len(),
            views(extras@) == extra_path(),
            views(dirs@) == add_missing(distinct_dirs(split_on(base@, ':')), extra_path().take(i as int)),
        decreases extras.len() - i,
    {
        assert(extra_path().take(i + 1).drop_last() =~= extra_path().take(i as int));
        assert(extra_path().take(i + 1).last() == extras@[i as int]@);
        if !contains_string(&dirs, &extras[i]) {
            let ghost before = views(dirs@);
            dirs.push(extras[i].clone());
            assert(views(dirs@) =~= before.push(extras@[i as int]@));
        }
        i = i + 1;
    }
    assert(extra_path().take(extras.len() as int) =~= extra_path());
    proof {
        reveal_strlit(":");
        lemma_full_path_dirs(base@);
    }
    assert(":"@ =~= seq![':']);
    join_strings(&dirs, ":")
}


/// The system directories that `dirs` lacks, in order.
pub open spec fn lacking(dirs: Seq<Seq<char>>, extras: Seq<Seq<char>>) -> Seq<Seq<char>>
    decreases extras.len(),
{
    if extras.len() == 0 {
        seq![]
    } else {
        let m = lacking(dirs, extras.drop_last());
        if dirs.contains(extras.last()) {
            m
        } else {
            m.push(extras.last())
        }
    }
}

/// The `PATH` given to spawned commands: `base` unchanged when it has every
/// system directory, else `base`, `:` and the lacking ones joined with `:`.
pub open spec fn spec_augmented_path(base: Seq<char>) -> Seq<char> {
    let adds = lacking(split_on(base, ':'), extra_path());
    if adds.len() == 0 {
        base
    } else {
        base + seq![':'] + join(adds, seq![':'])
    }
}

/// Builds the `PATH` for a spawned command from the value of `PATH` (empty
/// when unset): the system directories it lacks are appended.
pub fn augmented_path(base: &str) -> (r: String)
    ensures
        r@ == spec_augmented_path(base@),
{
    let parts = split_string(base, ':');
    let extras = extra_dirs();
    let mut adds: Vec<String> = Vec::new();
    let mut i: usize = 0;
    assert(extra_path().take(0) =~= Seq::<Seq<char>>::empty());
    while i < extras.len()
        invariant
            i <= extras.len(),
            views(extras@) == extra_path(),
            views(parts@) == split_on(base@, ':'),
            views(adds@) == lacking(views(parts@), extra_path().take(i as int)),
        decreases extras.len() - i,
    {
        assert(extra_path().take(i + 1).drop_last() =~= extra_path().take(i as int));
        assert(extra_path().take(i + 1).last() == extras@[i as int]@);
        if !contains_string(&parts, &extras[i]) {
            let x = extras[i].clone();
            proof { lemma_views_push(adds@, x); }
            adds.push(x);
        }
        i = i + 1;
    }
    assert(extra_path().take(extras.len() as int) =~= extra_path());
    if adds.len() == 0 {
        String::from_str(base)
    } else {
        proof { reveal_strlit(":"); }
        assert(":"@ =~= seq![':']);
        let mut r = String::from_str(base);
        r.append(":");
        r.append(join_strings(&adds, ":").as_str());
        r
    }
}

proof fn lemma_join_append(a: Seq<Seq<char>>, b: Seq<Seq<char>>, sep: Seq<char>)
    requires
        a.len() > 0,
        b.len() > 0,
    ensures
        join(a + b, sep) == join(a, sep) + sep + join(b, sep),
    decreases b.len(),
{
    if b.len() == 1 {
        assert((a + b).drop_last() =~= a);
        assert((a + b).last() == b[0]);
    } else {
        lemma_join_append(a, b.drop_last(), sep);
        assert((a + b).drop_last() =~= a + b.drop_last());
        assert((a + b).last() == b.last());
        assert(join(a + b, sep) =~= join(a, sep) + sep + join(b, sep));
    }
}

proof fn lemma_lacking_subset(dirs: Seq<Seq<char>>, extras: Seq<Seq<char>>, x: Seq<char>)
    requires
        lacking(dirs, extras).contains(x),
    ensures
        extras.contains(x),
        !dirs.contains(x),
    decreases extras.len(),
{
    let m = lacking(dirs, extras.drop_last());
    if !dirs.contains(extras.last()) && x == extras.last() {
        assert(extras[extras.len() - 1] == x);
    } else {
        if !dirs.contains(extras.last()) {
            crate::text::lemma_contains_push(m, extras.last(), x);
        }
        lemma_lacking_subset(dirs, extras.drop_last(), x);
        let k = choose|k: int| 0 <= k < extras.drop_last().len() && extras.drop_last()[k] == x;
        assert(extras[k] == x);
    }
}

proof fn lemma_add_missing_is_append(dirs: Seq<Seq<char>>, extras: Seq<Seq<char>>)
    requires
        extras.no_duplicates(),
    ensures
        add_missing(dirs, extras) == dirs + lacking(dirs, extras),
    decreases extras.len(),
{
    if extras.len() == 0 {
        assert(dirs + Seq::<Seq<char>>::empty() =~= dirs);
    } else {
        let e = extras.last();
        let pre = extras.drop_last();
        assert(pre.no_duplicates());
        lemma_add_missing_is_append(dirs, pre);
        let m = lacking(dirs, pre);
        let d = dirs + m;
        if m.contains(e) {
            lemma_lacking_subset(dirs, pre, e);
            let k = choose|k: int| 0 <= k < pre.len() && pre[k] == e;
            assert(extras[k] == extras[extras.len() - 1]);
        }
        if d.contains(e) && !dirs.contains(e) {
            let k = choose|k: int| 0 <= k < d.len() && d[k] == e;
            if k >= dirs.len() {
                assert(m[k - dirs.len()] == e);
            } else {
                assert(dirs[k] == e);
            }
        }
        if dirs.contains(e) {
            let k = choose|k: int| 0 <= k < dirs.len() && dirs[k] == e;
            assert(d[k] == e);
        }
        if !dirs.contains(e) {
            assert(d.push(e) =~= dirs + m.push(e));
        }
    }
}

/// The system directories are six distinct paths.
proof fn lemma_extra_path_distinct()
    ensures
        extra_path().no_duplicates(),
{
    reveal_strlit("/usr/local/sbin");
    reveal_strlit("/usr/local/bin");
    reveal_strlit("/usr/sbin");
    reveal_strlit("/usr/bin");
    reveal_strlit("/sbin");
    reveal_strlit("/bin");
    let e = extra_path();
    assert forall|i: int, j: int| 0 <= i < e.len() && 0 <= j < e.len() && i != j implies e[i] != e[j] by {
        assert(e[i].len() != e[j].len());
    }
}

/// Each system directory is among `dirs` or among those `lacking` adds.
proof fn lemma_lacking_covers(dirs: Seq<Seq<char>>, extras: Seq<Seq<char>>)
    ensures
        forall|e: Seq<char>| extras.contains(e) ==> dirs.contains(e) || #[trigger] lacking(dirs, extras).contains(e),
    decreases extras.len(),
{
    if extras.len() > 0 {
        let pre = extras.drop_last();
        lemma_lacking_covers(dirs, pre);
        let m = lacking(dirs, pre);
        assert forall|e: Seq<char>| extras.contains(e) implies dirs.contains(e) || #[trigger] lacking(
            dirs,
            extras,
        ).contains(e) by {
            let k = choose|k: int| 0 <= k < extras.len() && extras[k] == e;
            if k < pre.len() {
                assert(pre[k] == e);
                if m.contains(e) && !dirs.contains(extras.last()) {
                    crate::text::lemma_contains_push(m, extras.last(), e);
                }
            } else if !dirs.contains(e) {
                assert(lacking(dirs, extras) == m.push(e));
                assert(m.push(e)[m.len() as int] == e);
            }
        }
    }
}

/// No system directory holds a `:`.
proof fn lemma_extra_path_no_colon()
    ensures
        forall|k: int| 0 <= k < extra_path().len() ==> !has_char(#[trigger] extra_path()[k], ':'),
{
    reveal_strlit("/usr/local/sbin");
    reveal_strlit("/usr/local/bin");
    reveal_strlit("/usr/sbin");
    reveal_strlit("/usr/bin");
    reveal_strlit("/sbin");
    reveal_strlit("/bin");
    let e = extra_path();
    assert forall|k: int| 0 <= k < e.len() implies !has_char(#[trigger] e[k], ':') by {
        if has_char(e[k], ':') {
            let i = choose|i: int| 0 <= i < e[k].len() && e[k][i] == ':';
            assert(e[k][i] == ':');
        }
    }
}

/// Adding what is missing keeps a list free of repeats.
proof fn lemma_add_missing_distinct(dirs: Seq<Seq<char>>, extras: Seq<Seq<char>>)
    requires
        dirs.no_duplicates(),
    ensures
        add_missing(dirs, extras).no_duplicates(),
    decreases extras.len(),
{
    if extras.len() > 0 {
        lemma_add_missing_distinct(dirs, extras.drop_last());
        let d = add_missing(dirs, extras.drop_last());
        if !d.contains(extras.last()) {
            let r = d.push(extras.last());
            assert forall|i: int, j: int| 0 <= i < r.len() && 0 <= j < r.len() && i != j implies r[i] != r[j] by {
                if i < d.len() && j < d.len() {
                    assert(r[i] == d[i] && r[j] == d[j]);
                } else if i < d.len() {
                    assert(r[i] == d[i]);
                } else {
                    assert(r[j] == d[j]);
                }
            }
        }
    }
}

/// Every directory that adding what is missing gives comes from one of the
/// two lists.
proof fn lemma_add_missing_from(dirs: Seq<Seq<char>>, extras: Seq<Seq<char>>, x: Seq<char>)
    requires
        add_missing(dirs, extras).contains(x),
    ensures
        dirs.contains(x) || extras.contains(x),
    decreases extras.len(),
{
    if extras.len() > 0 {
        let pre = extras.drop_last();
        let d = add_missing(dirs, pre);
        if !d.contains(extras.last()) && x == extras.last() {
            assert(extras[extras.len() - 1] == x);
        } else {
            if !d.contains(extras.last()) {
                crate::text::lemma_contains_push(d, extras.last(), x);
            }
            lemma_add_missing_from(dirs, pre, x);
            if pre.contains(x) {
                let k = choose|k: int| 0 <= k < pre.len() && pre[k] == x;
                assert(extras[k] == x);
            }
        }
    }
}

/// A list without repeats keeps all of itself.
proof fn lemma_distinct_dirs_same(dirs: Seq<Seq<char>>)
    requires
        dirs.no_duplicates(),
    ensures
        distinct_dirs(dirs) == dirs,
{
    lemma_add_missing_is_append(seq![], dirs);
    lemma_lacking_all(dirs);
    assert(Seq::<Seq<char>>::empty() + dirs =~= dirs);
}

/// Nothing is among no directories, so all of them are lacking.
proof fn lemma_lacking_all(dirs: Seq<Seq<char>>)
    ensures
        lacking(seq![], dirs) == dirs,
    decreases dirs.len(),
{
    if dirs.len() > 0 {
        lemma_lacking_all(dirs.drop_last());
        assert(dirs.drop_last().push(dirs.last()) =~= dirs);
    }
}

/// The directories of the search path: no `:` in any, none twice, the
/// first one always there, and splitting the search path gives them back.
proof fn lemma_full_path_dirs(base: Seq<char>)
    ensures
        full_path_dirs(base).len() > 0,
        full_path_dirs(base).no_duplicates(),
        forall|k: int| 0 <= k < full_path_dirs(base).len() ==> !has_char(#[trigger] full_path_dirs(base)[k], ':'),
        split_on(spec_full_path(base), ':') == full_path_dirs(base),
{
    let parts = split_on(base, ':');
    let d = distinct_dirs(parts);
    let all = full_path_dirs(base);
    crate::text::lemma_split_nonempty(base, ':');
    crate::text::lemma_split_parts_free(base, ':');
    lemma_extra_path_no_colon();
    assert(Seq::<Seq<char>>::empty().no_duplicates());
    lemma_add_missing_distinct(seq![], parts);
    lemma_add_missing_distinct(d, extra_path());
    assert(all.len() > 0) by {
        lemma_add_missing_len(seq![], parts);
        lemma_add_missing_len(d, extra_path());
    }
    assert forall|k: int| 0 <= k < all.len() implies !has_char(#[trigger] all[k], ':') by {
        assert(all.contains(all[k]));
        lemma_add_missing_from(d, extra_path(), all[k]);
        if d.contains(all[k]) {
            lemma_add_missing_from(seq![], parts, all[k]);
            let j = choose|j: int| 0 <= j < parts.len() && parts[j] == all[k];
            assert(!has_char(parts[j], ':'));
        } else {
            let j = choose|j: int| 0 <= j < extra_path().len() && extra_path()[j] == all[k];
            assert(!has_char(extra_path()[j], ':'));
        }
    }
    crate::text::lemma_split_join(all, ':');
}

/// Adding what is missing to a non-empty list of directories, or from a
/// non-empty list to none, leaves a non-empty list.
proof fn lemma_add_missing_len(dirs: Seq<Seq<char>>, extras: Seq<Seq<char>>)
    requires
        dirs.len() > 0 || extras.len() > 0,
    ensures
        add_missing(dirs, extras).len() > 0,
    decreases extras.len(),
{
    if extras.len() > 0 && (dirs.len() > 0 || extras.len() > 1) {
        lemma_add_missing_len(dirs, extras.drop_last());
    }
}

/// The `PATH` that spawned commands get: the user's directories, as given,
/// then the system directories they lack.
proof fn lemma_augmented_joins(base: Seq<char>)
    ensures
        spec_augmented_path(base) == join(
            split_on(base, ':') + lacking(split_on(base, ':'), extra_path()),
            seq![':'],
        ),
{
    let parts = split_on(base, ':');
    crate::text::lemma_join_split(base, ':');
    let adds = lacking(parts, extra_path());
    if adds.len() == 0 {
        assert(parts + adds =~= parts);
    } else {
        crate::text::lemma_split_nonempty(base, ':');
        lemma_join_append(parts, adds, seq![':']);
    }
}

/// Law of the augmented `PATH`: its directories are those of the user's
/// `PATH`, in order, followed by the system directories it lacked; so every
/// system directory is one of them.
pub proof fn lemma_augmented_has_system_dirs(base: Seq<char>)
    ensures
        split_on(spec_augmented_path(base), ':') == split_on(base, ':') + lacking(split_on(base, ':'), extra_path()),
        forall|d: Seq<char>|
            extra_path().contains(d) ==> #[trigger] split_on(spec_augmented_path(base), ':').contains(d),
{
    let parts = split_on(base, ':');
    let adds = lacking(parts, extra_path());
    let all = parts + adds;
    lemma_augmented_joins(base);
    crate::text::lemma_split_nonempty(base, ':');
    crate::text::lemma_split_parts_free(base, ':');
    lemma_extra_path_no_colon();
    assert forall|k: int| 0 <= k < all.len() implies !has_char(#[trigger] all[k], ':') by {
        if k < parts.len() {
            assert(all[k] == parts[k]);
        } else {
            assert(all[k] == adds[k - parts.len()]);
            assert(adds.contains(all[k]));
            lemma_lacking_subset(parts, extra_path(), all[k]);
            let j = choose|j: int| 0 <= j < extra_path().len() && extra_path()[j] == all[k];
            assert(!has_char(extra_path()[j], ':'));
        }
    }
    crate::text::lemma_split_join(all, ':');
    lemma_lacking_covers(parts, extra_path());
    assert forall|d: Seq<char>| extra_path().contains(d) implies #[trigger] all.contains(d) by {
        if parts.contains(d) {
            let k = choose|k: int| 0 <= k < parts.len() && parts[k] == d;
            assert(all[k] == d);
        } else {
            assert(adds.contains(d));
            let k = choose|k: int| 0 <= k < adds.len() && adds[k] == d;
            assert(all[parts.len() + k] == d);
        }
    }
}

/// Law of the search path: when the user's `PATH` names no directory twice,
/// the `PATH` that spawned commands get is the one that command completion
/// searches. (Completion drops repeated directories; spawned commands get
/// the user's `PATH` as it is, with the lacking system directories added.)
pub proof fn lemma_augmented_is_full_path(base: Seq<char>)
    requires
        split_on(base, ':').no_duplicates(),
    ensures
        spec_augmented_path(base) == spec_full_path(base),
{
    let parts = split_on(base, ':');
    lemma_extra_path_distinct();
    lemma_distinct_dirs_same(parts);
    lemma_add_missing_is_append(parts, extra_path());
    lemma_augmented_joins(base);
}

} // verus!
