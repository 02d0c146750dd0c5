//! The logic of `ls`: options, type indicators, permission strings and the
//! column layout of long listings.
//!
//! Reading directories and metadata is the caller's part; these functions
//! take what was read as plain values.
use vstd::prelude::*;
use vstd::utf8::encode_utf8;
use crate::text::{
    chars_of, decimal, join, join_strings, lemma_views_push, push_char, string_from, u64_to_decimal,
    views,
};

verus! {

/// Active flags for the `ls` command.
#[derive(Debug, Clone, Copy, PartialEq, Eq, Structural)]
pub struct Flag {
    /// `-a`: show hidden files.
    pub a: bool,
    /// `-l`: long listing format.
    pub l: bool,
    /// `-F`: append type indicators.
    pub f: bool,
}

/// No flag set.
pub open spec fn no_flags() -> Flag {
    Flag { a: false, l: false, f: false }
}

/// Whether `arg` (an option, after its `-`) holds only the letters `a`, `l`
/// and `F`, and at least one of them.
pub open spec fn valid_flag_letters(arg: Seq<char>) -> bool {
    arg.len() > 1 && forall|i: int| 1 <= i < arg.len() ==> (#[trigger] arg[i] == 'a' || arg[i] == 'l'
        || arg[i] == 'F')
}

/// Whether the option `arg` holds the letter `c` after its first character.
pub open spec fn has_letter(arg: Seq<char>, c: char) -> bool {
    exists|i: int| 1 <= i < arg.len() && #[trigger] arg[i] == c
}

/// The model of `is_flag`: whether `arg` is a valid option, and the flags
/// with its letters set.
pub open spec fn spec_is_flag(arg: Seq<char>, flag: Flag) -> (bool, Flag) {
    if valid_flag_letters(arg) {
        (
            true,
            Flag {
                a: flag.a || has_letter(arg, 'a'),
                l: flag.l || has_letter(arg, 'l'),
                f: flag.f || has_letter(arg, 'F'),
            },
        )
    } else {
        (false, flag)
    }
}

/// Reads an option such as `-la` into `flag`. Returns false, leaving `flag`
/// alone, unless every letter after the first character is one of `a`, `l`
/// and `F` and there is at least one.
pub fn is_flag(arg: &str, flag: &mut Flag) -> (r: bool)
    requires
        arg@.len() == 0 || (arg@[0] as u32) < 0x80,
    ensures
        (r, *final(flag)) == spec_is_flag(arg@, *old(flag)),
{
    let v = chars_of(arg);
    if v.len() <= 1 {
        return false;
    }
    let mut i: usize = 1;
    while i < v.len()
        invariant
            1 <= i <= v.len(),
            v@ == arg@,
            forall|k: int| 1 <= k < i ==> (#[trigger] v@[k] == 'a' || v@[k] == 'l' || v@[k] == 'F'),
        decreases v.len() - i,
    {
        if !(v[i] == 'a' || v[i] == 'l' || v[i] == 'F') {
            assert(!valid_flag_letters(arg@));
            return false;
        }
        i = i + 1;
    }
    let ghost old_flag = *flag;
    let mut k: usize = 1;
    while k < v.len()
        invariant
            1 <= k <= v.len(),
            v@ == arg@,
            flag.a == (old_flag.a || exists|j: int| 1 <= j < k && #[trigger] v@[j] == 'a'),
            flag.l == (old_flag.l || exists|j: int| 1 <= j < k && #[trigger] v@[j] == 'l'),
            flag.f == (old_flag.f || exists|j: int| 1 <= j < k && #[trigger] v@[j] == 'F'),
        decreases v.len() - k,
    {
        let c = v[k];
        if c == 'a' {
            flag.a = true;
        } else if c == 'l' {
            flag.l = true;
        } else if c == 'F' {
            flag.f = true;
        }
        k = k + 1;
    }
    true
}

/// Where the reading of `ls` arguments stands: whether `--` was seen, the
/// flags, the operands, and the first unrecognised option.
#[verifier::ext_equal]
pub struct LsScan {
    pub marker: bool,
    pub flag: Flag,
    pub operands: Seq<Seq<char>>,
    pub error: Option<Seq<char>>,
}

/// Reads `ls` arguments from the left: `--` (wherever it occurs) is dropped
/// and ends option parsing; before it, an argument that begins with `-` is an
/// option, and the first invalid option stops the reading; every other
/// argument is an operand.
pub open spec fn ls_scan(args: Seq<Seq<char>>) -> LsScan
    decreases args.len(),
{
    if args.len() == 0 {
        LsScan { marker: false, flag: no_flags(), operands: seq![], error: None }
    } else {
        let p = ls_scan(args.drop_last());
        let a = args.last();
        if p.error is Some {
            p
        } else if a == seq!['-', '-'] {
            LsScan { marker: true, ..p }
        } else if a.len() > 0 && a[0] == '-' && !p.marker {
            let (ok, f) = spec_is_flag(a, p.flag);
            if ok {
                LsScan { flag: f, ..p }
            } else {
                LsScan { error: Some(a), ..p }
            }
        } else {
            LsScan { operands: p.operands.push(a), ..p }
        }
    }
}

/// Whether an argument of `ls` is an operand rather than an option: it does
/// not begin with `-`.
pub open spec fn ls_operand() -> spec_fn(Seq<char>) -> bool {
    |a: Seq<char>| !(a.len() > 0 && a[0] == '-')
}

/// Law of `ls` options (for arguments without `--`): the arguments that
/// begin with `-` are options, all others operands, kept in order. When
/// every option holds only the letters `a`, `l` and `F` (at least one), the
/// reading succeeds and each flag is set exactly when some option holds its
/// letter; otherwise it fails with one of the invalid options.
pub proof fn lemma_ls_options(args: Seq<Seq<char>>)
    requires
        forall|k: int| 0 <= k < args.len() ==> #[trigger] args[k] != seq!['-', '-'],
    ensures
        ({
            let sc = ls_scan(args);
            let valid = forall|k: int|
                0 <= k < args.len() && args[k].len() > 0 && args[k][0] == '-' ==> (#[trigger] args[k]).len() > 1
                    && forall|i: int| 1 <= i < args[k].len() ==> args[k][i] == 'a' || args[k][i] == 'l' || args[k][i]
                    == 'F';
            &&& !sc.marker
            &&& valid ==> {
                &&& sc.error is None
                &&& sc.operands == args.filter(ls_operand())
                &&& sc.flag.a == exists|k: int, i: int|
                    0 <= k < args.len() && args[k].len() > 0 && args[k][0] == '-' && 1 <= i < args[k].len()
                        && #[trigger] args[k][i] == 'a'
                &&& sc.flag.l == exists|k: int, i: int|
                    0 <= k < args.len() && args[k].len() > 0 && args[k][0] == '-' && 1 <= i < args[k].len()
                        && #[trigger] args[k][i] == 'l'
                &&& sc.flag.f == exists|k: int, i: int|
                    0 <= k < args.len() && args[k].len() > 0 && args[k][0] == '-' && 1 <= i < args[k].len()
                        && #[trigger] args[k][i] == 'F'
            }
            &&& !valid ==> (sc.error matches Some(e) && args.contains(e) && e.len() > 0 && e[0] == '-' && !(e.len()
                > 1 && forall|i: int| 1 <= i < e.len() ==> e[i] == 'a' || e[i] == 'l' || e[i] == 'F'))
        }),
    decreases args.len(),
{
    if args.len() > 0 {
        let pre = args.drop_last();
        let a = args.last();
        assert forall|k: int| 0 <= k < pre.len() implies #[trigger] pre[k] != seq!['-', '-'] by {
            assert(pre[k] == args[k]);
        }
        lemma_ls_options(pre);
        assert(a == args[args.len() - 1]);
        assert(args.filter(ls_operand()) == {
            let f = pre.filter(ls_operand());
            if !(a.len() > 0 && a[0] == '-') { f.push(a) } else { f }
        }) by {
            reveal(Seq::filter);
            assert(args.drop_last() =~= pre);
            assert(ls_operand()(a) == !(a.len() > 0 && a[0] == '-'));
        }
        let p = ls_scan(pre);
        let valid_pre = forall|k: int|
            0 <= k < pre.len() && pre[k].len() > 0 && pre[k][0] == '-' ==> (#[trigger] pre[k]).len() > 1 && forall|
                i: int,
            | 1 <= i < pre[k].len() ==> pre[k][i] == 'a' || pre[k][i] == 'l' || pre[k][i] == 'F';
        let valid = forall|k: int|
            0 <= k < args.len() && args[k].len() > 0 && args[k][0] == '-' ==> (#[trigger] args[k]).len() > 1
                && forall|i: int| 1 <= i < args[k].len() ==> args[k][i] == 'a' || args[k][i] == 'l' || args[k][i]
                == 'F';
        let a_ok = !(a.len() > 0 && a[0] == '-') || (a.len() > 1 && forall|i: int|
            1 <= i < a.len() ==> a[i] == 'a' || a[i] == 'l' || a[i] == 'F');
        assert(valid == (valid_pre && a_ok)) by {
            if valid {
                assert forall|k: int| 0 <= k < pre.len() && pre[k].len() > 0 && pre[k][0] == '-' implies (
                #[trigger] pre[k]).len() > 1 && forall|i: int|
                    1 <= i < pre[k].len() ==> pre[k][i] == 'a' || pre[k][i] == 'l' || pre[k][i] == 'F' by {
                    assert(pre[k] == args[k]);
                }
            }
            if valid_pre && a_ok {
                assert forall|k: int| 0 <= k < args.len() && args[k].len() > 0 && args[k][0] == '-' implies (
                #[trigger] args[k]).len() > 1 && forall|i: int|
                    1 <= i < args[k].len() ==> args[k][i] == 'a' || args[k][i] == 'l' || args[k][i] == 'F' by {
                    if k < pre.len() {
                        assert(pre[k] == args[k]);
                    }
                }
            }
        }
        if !valid_pre {
            let e = p.error->Some_0;
            let j = choose|j: int| 0 <= j < pre.len() && pre[j] == e;
            assert(args[j] == e);
        } else if a.len() > 0 && a[0] == '-' {
            assert(a != seq!['-', '-']);
            if !a_ok {
                assert(!valid_flag_letters(a)) by {
                    if valid_flag_letters(a) {
                        assert forall|i: int| 1 <= i < a.len() implies a[i] == 'a' || a[i] == 'l' || a[i] == 'F' by {
                            assert(a[i] == 'a' || a[i] == 'l' || a[i] == 'F');
                        }
                    }
                }
                assert(args[args.len() - 1] == a);
            } else {
                assert(valid_flag_letters(a)) by {
                    assert forall|i: int| 1 <= i < a.len() implies (#[trigger] a[i] == 'a' || a[i] == 'l' || a[i]
                        == 'F') by {
                    }
                }
                lemma_flags_grow(args, 'a');
                lemma_flags_grow(args, 'l');
                lemma_flags_grow(args, 'F');
            }
        } else {
            lemma_flags_grow(args, 'a');
            lemma_flags_grow(args, 'l');
            lemma_flags_grow(args, 'F');
        }
    }
}

/// Whether an argument is the marker `--`.
pub open spec fn not_marker() -> spec_fn(Seq<char>) -> bool {
    |a: Seq<char>| a != seq!['-', '-']
}

/// Law of `--`: once it is read, every later argument is an operand (a
/// later `--` is dropped too), and the options read before it stay as they
/// were.
pub proof fn lemma_ls_marker(before: Seq<Seq<char>>, after: Seq<Seq<char>>)
    requires
        ls_scan(before).error is None,
    ensures
        ls_scan(before + seq![seq!['-', '-']] + after).error is None,
        ls_scan(before + seq![seq!['-', '-']] + after).flag == ls_scan(before).flag,
        ls_scan(before + seq![seq!['-', '-']] + after).operands == ls_scan(before).operands + after.filter(
            not_marker(),
        ),
    decreases after.len(),
{
    reveal(Seq::filter);
    let head = before + seq![seq!['-', '-']];
    if after.len() == 0 {
        assert(head + after =~= head);
        assert(head.drop_last() =~= before);
        assert(ls_scan(before).operands + after.filter(not_marker()) =~= ls_scan(before).operands);
    } else {
        let pre = after.drop_last();
        lemma_ls_marker(before, pre);
        let all = head + after;
        assert(all.drop_last() =~= head + pre);
        assert(all.last() == after.last());
        assert(ls_scan(head + pre).marker) by {
            lemma_marker_stays(before, pre);
        }
        assert(not_marker()(after.last()) == (after.last() != seq!['-', '-']));
        assert(ls_scan(before).operands + after.filter(not_marker()) =~= if after.last() != seq!['-', '-'] {
            (ls_scan(before).operands + pre.filter(not_marker())).push(after.last())
        } else {
            ls_scan(before).operands + pre.filter(not_marker())
        });
    }
}

/// After `--` has been read, the reading stays past it.
proof fn lemma_marker_stays(before: Seq<Seq<char>>, after: Seq<Seq<char>>)
    requires
        ls_scan(before).error is None,
    ensures
        ls_scan(before + seq![seq!['-', '-']] + after).marker,
    decreases after.len(),
{
    let head = before + seq![seq!['-', '-']];
    if after.len() == 0 {
        assert(head + after =~= head);
        assert(head.drop_last() =~= before);
    } else {
        lemma_marker_stays(before, after.drop_last());
        lemma_ls_marker(before, after.drop_last());
        assert((head + after).drop_last() =~= head + after.drop_last());
    }
}

/// A letter occurs in an option of the arguments exactly when it occurs in
/// an option of all but the last, or in the last.
proof fn lemma_flags_grow(args: Seq<Seq<char>>, c: char)
    requires
        args.len() > 0,
    ensures
        (exists|k: int, i: int|
            0 <= k < args.len() && args[k].len() > 0 && args[k][0] == '-' && 1 <= i < args[k].len()
                && #[trigger] args[k][i] == c) == ((exists|k: int, i: int|
            0 <= k < args.len() - 1 && args.drop_last()[k].len() > 0 && args.drop_last()[k][0] == '-' && 1 <= i
                < args.drop_last()[k].len() && #[trigger] args.drop_last()[k][i] == c) || (args.last().len() > 0
            && args.last()[0] == '-' && has_letter(args.last(), c))),
{
    let pre = args.drop_last();
    if exists|k: int, i: int|
        0 <= k < args.len() && args[k].len() > 0 && args[k][0] == '-' && 1 <= i < args[k].len()
            && #[trigger] args[k][i] == c {
        let (k, i) = choose|k: int, i: int|
            0 <= k < args.len() && args[k].len() > 0 && args[k][0] == '-' && 1 <= i < args[k].len()
                && #[trigger] args[k][i] == c;
        if k < args.len() - 1 {
            assert(pre[k] == args[k]);
            assert(pre[k][i] == c);
        } else {
            assert(args.last()[i] == c);
        }
    }
    if exists|k: int, i: int|
        0 <= k < args.len() - 1 && pre[k].len() > 0 && pre[k][0] == '-' && 1 <= i < pre[k].len()
            && #[trigger] pre[k][i] == c {
        let (k, i) = choose|k: int, i: int|
            0 <= k < args.len() - 1 && pre[k].len() > 0 && pre[k][0] == '-' && 1 <= i < pre[k].len()
                && #[trigger] pre[k][i] == c;
        assert(args[k] == pre[k]);
        assert(args[k][i] == c);
    }
    if args.last().len() > 0 && args.last()[0] == '-' && has_letter(args.last(), c) {
        let i = choose|i: int| 1 <= i < args.last().len() && #[trigger] args.last()[i] == c;
        let k = args.len() - 1;
        assert(args[k] == args.last());
        assert(args[k][i] == c);
    }
}

/// The operands that `ls` lists: those given, or `.` when none is.
pub open spec fn ls_targets(operands: Seq<Seq<char>>) -> Seq<Seq<char>> {
    if operands.len() == 0 {
        seq![seq!['.']]
    } else {
        operands
    }
}

/// Reads the arguments of `ls` into its flags and the paths to list (`.`
/// when none is given). Fails with the first unrecognised option, which `ls`
/// reports as `unrecognized option`.
pub fn parse_ls_args(args: &Vec<String>) -> (r: Result<(Flag, Vec<String>), String>)
    ensures
        match r {
            Ok((flag, targets)) => ls_scan(views(args@)).error is None && flag == ls_scan(
                views(args@),
            ).flag && views(targets@) == ls_targets(ls_scan(views(args@)).operands),
            Err(bad) => ls_scan(views(args@)).error == Some(bad@),
        },
{
    let mut flag = Flag { a: false, l: false, f: false };
    let mut marker = false;
    let mut operands: Vec<String> = Vec::new();
    let mut i: usize = 0;
    assert(views(args@).take(0) =~= Seq::<Seq<char>>::empty());
    assert(views(operands@) =~= Seq::<Seq<char>>::empty());
    while i < args.len()
        invariant
            i <= args.len(),
            ls_scan(views(args@).take(i as int)) == (LsScan {
                marker,
                flag,
                operands: views(operands@),
                error: None,
            }),
        decreases args.len() - i,
    {
        let ghost t = views(args@).take(i + 1);
        assert(t.drop_last() =~= views(args@).take(i as int));
        assert(t.last() == args@[i as int]@);
        let v = chars_of(args[i].as_str());
        if v.len() == 2 && v[0] == '-' && v[1] == '-' {
            assert(v@ =~= seq!['-', '-']);
            marker = true;
        } else if v.len() > 0 && v[0] == '-' && !marker {
            assert(v@ != seq!['-', '-']);
            if !is_flag(args[i].as_str(), &mut flag) {
                let bad = args[i].clone();
                assert(ls_scan(views(args@).take(i + 1)).error == Some(bad@));
                proof {
                    lemma_scan_error_stays(views(args@), (i + 1) as nat);
                }
                assert(views(args@).take(args.len() as int) =~= views(args@));
                return Err(bad);
            }
        } else {
            assert(v@ != seq!['-', '-']) by {
                if v@ =~= seq!['-', '-'] {
                    assert(v@.len() == 2);
                }
            }
            let x = args[i].clone();
            proof { lemma_views_push(operands@, x); }
            operands.push(x);
        }
        i = i + 1;
    }
    assert(views(args@).take(args.len() as int) =~= views(args@));
    if operands.len() == 0 {
        proof { reveal_strlit("."); }
        let dot = String::from_str(".");
        assert(dot@ =~= seq!['.']);
        let targets = vec![dot];
        assert(views(targets@) =~= seq![seq!['.']]);
        Ok((flag, targets))
    } else {
        Ok((flag, operands))
    }
}

/// What an operand of `ls` names.
#[derive(Debug, Clone, Copy, PartialEq, Eq, Structural)]
pub enum OperandKind {
    /// Nothing: neither a file nor a symbolic link of that name exists.
    Missing,
    /// A directory, not reached through a symbolic link.
    Directory,
    /// Anything else: a file, a device, or a symbolic link.
    File,
}

/// The operands of kind `k`, in order.
pub open spec fn of_kind(ops: Seq<(Seq<char>, OperandKind)>, k: OperandKind) -> Seq<Seq<char>>
    decreases ops.len(),
{
    if ops.len() == 0 {
        seq![]
    } else {
        let rest = of_kind(ops.drop_last(), k);
        if ops.last().1 == k {
            rest.push(ops.last().0)
        } else {
            rest
        }
    }
}

/// The view of operands with their kinds.
pub open spec fn kinds_view(ops: Seq<(String, OperandKind)>) -> Seq<(Seq<char>, OperandKind)> {
    ops.map_values(|p: (String, OperandKind)| (p.0@, p.1))
}

/// Sorts the operands of `ls` by what they name, keeping their order: the
/// files, the directories, and those that do not exist.
pub fn partition_operands(ops: &Vec<(String, OperandKind)>) -> (r: (Vec<String>, Vec<String>, Vec<String>))
    ensures
        views(r.0@) == of_kind(kinds_view(ops@), OperandKind::File),
        views(r.1@) == of_kind(kinds_view(ops@), OperandKind::Directory),
        views(r.2@) == of_kind(kinds_view(ops@), OperandKind::Missing),
{
    let ghost kv = kinds_view(ops@);
    let mut files: Vec<String> = Vec::new();
    let mut dirs: Vec<String> = Vec::new();
    let mut missing: Vec<String> = Vec::new();
    let mut i: usize = 0;
    assert(kv.take(0) =~= Seq::<(Seq<char>, OperandKind)>::empty());
    while i < ops.len()
        invariant
            i <= ops.len(),
            kv == kinds_view(ops@),
            views(files@) == of_kind(kv.take(i as int), OperandKind::File),
            views(dirs@) == of_kind(kv.take(i as int), OperandKind::Directory),
            views(missing@) == of_kind(kv.take(i as int), OperandKind::Missing),
        decreases ops.len() - i,
    {
        let ghost t = kv.take(i + 1);
        assert(t.drop_last() =~= kv.take(i as int));
        assert(t.last() == (ops@[i as int].0@, ops@[i as int].1));
        let x = ops[i].0.clone();
        match ops[i].1 {
            OperandKind::File => {
                proof { lemma_views_push(files@, x); }
                files.push(x);
            },
            OperandKind::Directory => {
                proof { lemma_views_push(dirs@, x); }
                dirs.push(x);
            },
            OperandKind::Missing => {
                proof { lemma_views_push(missing@, x); }
                missing.push(x);
            },
        }
        i = i + 1;
    }
    assert(kv.take(ops.len() as int) =~= kv);
    (files, dirs, missing)
}

/// Whether `ls` succeeds: every directory could be read and every operand
/// exists.
pub fn ls_succeeded(all_read: bool, missing: &Vec<String>) -> (r: bool)
    ensures
        r == (all_read && missing@.len() == 0),
{
    all_read && missing.len() == 0
}

/// Once the reading has failed, the rest of the arguments changes nothing.
proof fn lemma_scan_error_stays(args: Seq<Seq<char>>, k: nat)
    requires
        k <= args.len(),
        ls_scan(args.take(k as int)).error is Some,
    ensures
        ls_scan(args) == ls_scan(args.take(k as int)),
    decreases args.len() - k,
{
    if k < args.len() {
        assert(args.take(k + 1 as int).drop_last() =~= args.take(k as int));
        lemma_scan_error_stays(args, k + 1);
    } else {
        assert(args.take(k as int) =~= args);
    }
}

// ───────────────────────────── file kinds ─────────────────────────────

/// The type of a file, as its (symlink) metadata reports it.
#[derive(Debug, Clone, Copy, PartialEq, Eq, Structural)]
pub enum FileKind {
    Directory,
    Symlink,
    CharDevice,
    BlockDevice,
    Fifo,
    Socket,
    Regular,
}

/// The character that `ls -F` appends: `/` for directories, `@` for
/// symbolic links, `|` for FIFOs, `=` for sockets, `*` for other files with
/// an execute bit; none otherwise.
pub open spec fn indicator(kind: FileKind, mode: u32) -> Option<char> {
    match kind {
        FileKind::Directory => Some('/'),
        FileKind::Symlink => Some('@'),
        FileKind::Fifo => Some('|'),
        FileKind::Socket => Some('='),
        _ => if mode & 0o111u32 != 0 {
            Some('*')
        } else {
            None
        },
    }
}

/// `name` with the indicator of its file, if it has one.
pub open spec fn decorate(name: Seq<char>, kind: FileKind, mode: u32) -> Seq<char> {
    match indicator(kind, mode) {
        Some(c) => name.push(c),
        None => name,
    }
}

/// Law of the `-F` indicators: the name is kept and at most one character
/// follows it: `/` exactly for directories, `@` exactly for symbolic links,
/// `|` exactly for FIFOs, `=` exactly for sockets, and `*` exactly for other
/// files with an execute bit.
pub proof fn lemma_indicator(name: Seq<char>, kind: FileKind, mode: u32)
    ensures
        ({
            let d = decorate(name, kind, mode);
            &&& d.len() == name.len() || d.len() == name.len() + 1
            &&& d.take(name.len() as int) == name
            &&& (d.len() == name.len() + 1 && d.last() == '/') <==> kind == FileKind::Directory
            &&& (d.len() == name.len() + 1 && d.last() == '@') <==> kind == FileKind::Symlink
            &&& (d.len() == name.len() + 1 && d.last() == '|') <==> kind == FileKind::Fifo
            &&& (d.len() == name.len() + 1 && d.last() == '=') <==> kind == FileKind::Socket
            &&& (d.len() == name.len() + 1 && d.last() == '*') <==> (kind != FileKind::Directory && kind
                != FileKind::Symlink && kind != FileKind::Fifo && kind != FileKind::Socket && mode & 0o111u32 != 0)
        }),
{
    let d = decorate(name, kind, mode);
    if d.len() == name.len() + 1 {
        assert(d.take(name.len() as int) =~= name);
    } else {
        assert(d.take(name.len() as int) =~= name);
    }
}

/// Appends the `-F` type indicator of a file to its name.
pub fn append_indicator(name: String, kind: FileKind, mode: u32) -> (r: String)
    ensures
        r@ == decorate(name@, kind, mode),
{
    let mut name = name;
    match kind {
        FileKind::Directory => push_char(&mut name, '/'),
        FileKind::Symlink => push_char(&mut name, '@'),
        FileKind::Fifo => push_char(&mut name, '|'),
        FileKind::Socket => push_char(&mut name, '='),
        _ => {
            if mode & 0o111u32 != 0 {
                push_char(&mut name, '*');
            }
        },
    }
    name
}

/// The view of names with what their metadata says, when it could be read.
pub open spec fn named_kinds_view(v: Seq<(String, Option<(FileKind, u32)>)>) -> Seq<
    (Seq<char>, Option<(FileKind, u32)>),
> {
    v.map_values(|p: (String, Option<(FileKind, u32)>)| (p.0@, p.1))
}

/// A name as `ls -F` shows it: decorated when its metadata could be read.
pub open spec fn symbol_name(e: (Seq<char>, Option<(FileKind, u32)>)) -> Seq<char> {
    match e.1 {
        Some((kind, mode)) => decorate(e.0, kind, mode),
        None => e.0,
    }
}

/// The short `-F` listing of a directory: each name with its indicator,
/// separated by two spaces. Each name comes with its kind and mode when its
/// metadata could be read.
pub fn add_symbols(entries: &Vec<(String, Option<(FileKind, u32)>)>) -> (r: String)
    ensures
        r@ == join(named_kinds_view(entries@).map_values(|e| symbol_name(e)), seq![' ', ' ']),
{
    let ghost ev = named_kinds_view(entries@);
    let mut names: Vec<String> = Vec::new();
    let mut i: usize = 0;
    while i < entries.len()
        invariant
            i <= entries.len(),
            ev == named_kinds_view(entries@),
            views(names@) == ev.take(i as int).map_values(|e| symbol_name(e)),
        decreases entries.len() - i,
    {
        let name = entries[i].0.clone();
        let shown = match entries[i].1 {
            Some((kind, mode)) => append_indicator(name, kind, mode),
            None => name,
        };
        proof { lemma_views_push(names@, shown); }
        names.push(shown);
        assert(views(names@) =~= ev.take(i + 1).map_values(|e| symbol_name(e)));
        i = i + 1;
    }
    assert(ev.take(entries.len() as int) =~= ev);
    proof { reveal_strlit("  "); }
    assert("  "@ =~= seq![' ', ' ']);
    join_strings(&names, "  ")
}

// ───────────────────────────── permissions ─────────────────────────────

/// The first character of a long listing: the type of the file.
pub open spec fn type_char(kind: FileKind) -> char {
    match kind {
        FileKind::Directory => 'd',
        FileKind::Symlink => 'l',
        FileKind::CharDevice => 'c',
        FileKind::BlockDevice => 'b',
        FileKind::Fifo => 'p',
        FileKind::Socket => 's',
        FileKind::Regular => '-',
    }
}

/// `yes` when `bit` is set in `mode`, else `-`.
pub open spec fn bit_char(mode: u32, bit: u32, yes: char) -> char {
    if mode & bit != 0 {
        yes
    } else {
        '-'
    }
}

/// The execute position of a permission triple with a special bit (setuid,
/// setgid, sticky): `set` with execute, `unset` without; else `x` or `-`.
pub open spec fn exec_char(mode: u32, exec_bit: u32, special_bit: u32, set: char, unset: char) -> char {
    if mode & special_bit != 0 {
        if mode & exec_bit != 0 {
            set
        } else {
            unset
        }
    } else {
        if mode & exec_bit != 0 {
            'x'
        } else {
            '-'
        }
    }
}

/// The permission column of `ls -l`: type, the three permission triples,
/// then `+` when the file has extended attributes, else a space.
pub open spec fn permission_string(kind: FileKind, mode: u32, has_xattr: bool) -> Seq<char> {
    seq![
        type_char(kind),
        bit_char(mode, 0o400u32, 'r'),
        bit_char(mode, 0o200u32, 'w'),
        exec_char(mode, 0o100u32, 0o4000u32, 's', 'S'),
        bit_char(mode, 0o040u32, 'r'),
        bit_char(mode, 0o020u32, 'w'),
        exec_char(mode, 0o010u32, 0o2000u32, 's', 'S'),
        bit_char(mode, 0o004u32, 'r'),
        bit_char(mode, 0o002u32, 'w'),
        exec_char(mode, 0o001u32, 0o1000u32, 't', 'T'),
        if has_xattr { '+' } else { ' ' },
    ]
}

fn bit_ch(mode: u32, bit: u32, yes: char) -> (r: char)
    ensures
        r == bit_char(mode, bit, yes),
{
    if mode & bit != 0 {
        yes
    } else {
        '-'
    }
}

fn exec_ch(mode: u32, exec_bit: u32, special_bit: u32, set: char, unset: char) -> (r: char)
    ensures
        r == exec_char(mode, exec_bit, special_bit, set, unset),
{
    if mode & special_bit != 0 {
        if mode & exec_bit != 0 {
            set
        } else {
            unset
        }
    } else {
        if mode & exec_bit != 0 {
            'x'
        } else {
            '-'
        }
    }
}

/// Renders Unix permission bits as `ls -l` does: a type character, nine
/// permission characters (with setuid, setgid and sticky bits shown as
/// `s`/`S` and `t`/`T`), and `+` for extended attributes or a space.
pub fn format_permissions(kind: FileKind, mode: u32, has_xattr: bool) -> (r: String)
    ensures
        r@ == permission_string(kind, mode, has_xattr),
{
    let t = match kind {
        FileKind::Directory => 'd',
        FileKind::Symlink => 'l',
        FileKind::CharDevice => 'c',
        FileKind::BlockDevice => 'b',
        FileKind::Fifo => 'p',
        FileKind::Socket => 's',
        FileKind::Regular => '-',
    };
    let v: Vec<char> = vec![
        t,
        bit_ch(mode, 0o400u32, 'r'),
        bit_ch(mode, 0o200u32, 'w'),
        exec_ch(mode, 0o100u32, 0o4000u32, 's', 'S'),
        bit_ch(mode, 0o040u32, 'r'),
        bit_ch(mode, 0o020u32, 'w'),
        exec_ch(mode, 0o010u32, 0o2000u32, 's', 'S'),
        bit_ch(mode, 0o004u32, 'r'),
        bit_ch(mode, 0o002u32, 'w'),
        exec_ch(mode, 0o001u32, 0o1000u32, 't', 'T'),
        if has_xattr { '+' } else { ' ' },
    ];
    assert(v@ =~= permission_string(kind, mode, has_xattr));
    string_from(&v)
}


/// Law of the permission column: it has eleven characters; the read and
/// write positions show `r` and `w` exactly when the owner, group and other
/// bits are set; each execute position shows an execute letter (`x`, `s` or
/// `t`) exactly when the execute bit is set, and a capital `S` or `T` when
/// only the setuid, setgid or sticky bit is; the last is `+` exactly when
/// the file has extended attributes.
pub proof fn lemma_permission_bits(kind: FileKind, mode: u32, has_xattr: bool)
    ensures
        ({
            let p = permission_string(kind, mode, has_xattr);
            &&& p.len() == 11
            &&& (p[1] == 'r') == (mode & 0o400u32 != 0) && (p[1] == 'r' || p[1] == '-')
            &&& (p[2] == 'w') == (mode & 0o200u32 != 0) && (p[2] == 'w' || p[2] == '-')
            &&& (p[4] == 'r') == (mode & 0o040u32 != 0) && (p[4] == 'r' || p[4] == '-')
            &&& (p[5] == 'w') == (mode & 0o020u32 != 0) && (p[5] == 'w' || p[5] == '-')
            &&& (p[7] == 'r') == (mode & 0o004u32 != 0) && (p[7] == 'r' || p[7] == '-')
            &&& (p[8] == 'w') == (mode & 0o002u32 != 0) && (p[8] == 'w' || p[8] == '-')
            &&& (p[3] == 'x' || p[3] == 's') == (mode & 0o100u32 != 0)
            &&& (p[3] == 's' || p[3] == 'S') == (mode & 0o4000u32 != 0)
            &&& (p[6] == 'x' || p[6] == 's') == (mode & 0o010u32 != 0)
            &&& (p[6] == 's' || p[6] == 'S') == (mode & 0o2000u32 != 0)
            &&& (p[9] == 'x' || p[9] == 't') == (mode & 0o001u32 != 0)
            &&& (p[9] == 't' || p[9] == 'T') == (mode & 0o1000u32 != 0)
            &&& (p[10] == '+') == has_xattr && (p[10] == '+' || p[10] == ' ')
            &&& p[0] == '-' <==> kind == FileKind::Regular
            &&& p[0] == 'd' <==> kind == FileKind::Directory
            &&& p[0] == 'l' <==> kind == FileKind::Symlink
        }),
{
}

// ───────────────────────────── long listings ─────────────────────────────

/// One row of a long listing, its columns already rendered.
#[derive(Debug)]
pub struct LongEntry {
    pub perms: String,
    pub links: String,
    pub user: String,
    pub group: String,
    pub size: String,
    pub date: String,
    pub name: String,
    /// 512-byte blocks that the file occupies.
    pub blocks: u64,
}

/// The length of `s` in UTF-8 bytes, as `str::len` counts it.
pub open spec fn byte_len(s: Seq<char>) -> nat {
    encode_utf8(s).len()
}

/// The largest byte length among `s`, or 0.
pub open spec fn max_byte_len(s: Seq<Seq<char>>) -> nat
    decreases s.len(),
{
    if s.len() == 0 {
        0
    } else {
        let m = max_byte_len(s.drop_last());
        if byte_len(s.last()) > m {
            byte_len(s.last())
        } else {
            m
        }
    }
}

/// `n` spaces.
pub open spec fn spaces(n: nat) -> Seq<char> {
    Seq::new(n, |i: int| ' ')
}

/// `s` right-aligned to `w` characters, as `{:>w$}` writes it.
pub open spec fn pad_left(s: Seq<char>, w: nat) -> Seq<char> {
    if s.len() < w {
        spaces((w - s.len()) as nat) + s
    } else {
        s
    }
}

/// `s` left-aligned to `w` characters, as `{:<w$}` writes it.
pub open spec fn pad_right(s: Seq<char>, w: nat) -> Seq<char> {
    if s.len() < w {
        s + spaces((w - s.len()) as nat)
    } else {
        s
    }
}

/// The widths of the aligned columns: links, user, group, size and date.
pub open spec fn column_widths(es: Seq<LongEntry>) -> (nat, nat, nat, nat, nat) {
    (
        max_byte_len(es.map_values(|e: LongEntry| e.links@)),
        max_byte_len(es.map_values(|e: LongEntry| e.user@)),
        max_byte_len(es.map_values(|e: LongEntry| e.group@)),
        max_byte_len(es.map_values(|e: LongEntry| e.size@)),
        max_byte_len(es.map_values(|e: LongEntry| e.date@)),
    )
}

/// One line of a long listing.
pub open spec fn long_line(e: LongEntry, w: (nat, nat, nat, nat, nat)) -> Seq<char> {
    e.perms@ + seq![' '] + pad_left(e.links@, w.0) + seq![' '] + pad_right(e.user@, w.1) + seq![' ']
        + pad_right(e.group@, w.2) + seq![' '] + pad_left(e.size@, w.3) + seq![' '] + pad_left(
        e.date@,
        w.4,
    ) + seq![' '] + e.name@ + seq!['\n']
}

/// The lines of a long listing, in order.
pub open spec fn long_lines(es: Seq<LongEntry>, w: (nat, nat, nat, nat, nat)) -> Seq<char>
    decreases es.len(),
{
    if es.len() == 0 {
        seq![]
    } else {
        long_lines(es.drop_last(), w) + long_line(es.last(), w)
    }
}

/// The blocks of all entries together.
pub open spec fn sum_blocks(es: Seq<LongEntry>) -> nat
    decreases es.len(),
{
    if es.len() == 0 {
        0
    } else {
        sum_blocks(es.drop_last()) + es.last().blocks as nat
    }
}

/// The `total` line: half the block count, in kilobytes.
pub open spec fn total_line(es: Seq<LongEntry>) -> Seq<char> {
    seq!['t', 'o', 't', 'a', 'l', ' '] + decimal(sum_blocks(es) / 2) + seq!['\n']
}

/// A long listing: empty for no entries; otherwise the optional `total`
/// line, then one line per entry with the columns aligned to the widest
/// value in bytes.
pub open spec fn spec_align_and_format(es: Seq<LongEntry>, show_total: bool) -> Seq<char> {
    if es.len() == 0 {
        seq![]
    } else {
        (if show_total {
            total_line(es)
        } else {
            seq![]
        }) + long_lines(es, column_widths(es))
    }
}

/// Whether every column of every entry has a byte length that fits in
/// `usize`, as it does for any string in memory.
pub open spec fn lengths_fit(es: Seq<LongEntry>) -> bool {
    forall|k: int|
        0 <= k < es.len() ==> byte_len((#[trigger] es[k]).links@) <= usize::MAX && byte_len(
            es[k].user@,
        ) <= usize::MAX && byte_len(es[k].group@) <= usize::MAX && byte_len(es[k].size@)
            <= usize::MAX && byte_len(es[k].date@) <= usize::MAX
}

/// Appends the characters of `s`.
fn push_all(out: &mut Vec<char>, s: &String)
    ensures
        final(out)@ == old(out)@ + s@,
{
    let v = chars_of(s.as_str());
    let mut i: usize = 0;
    while i < v.len()
        invariant
            i <= v.len(),
            out@ == old(out)@ + v@.take(i as int),
        decreases v.len() - i,
    {
        out.push(v[i]);
        assert(old(out)@ + v@.take(i + 1) =~= old(out)@ + v@.take(i as int) + seq![v@[i as int]]);
        i = i + 1;
    }
    assert(v@.take(v.len() as int) =~= v@);
}

/// Appends `n` spaces.
fn push_spaces(out: &mut Vec<char>, n: usize)
    ensures
        final(out)@ == old(out)@ + spaces(n as nat),
{
    let mut i: usize = 0;
    while i < n
        invariant
            i <= n,
            out@ == old(out)@ + spaces(i as nat),
        decreases n - i,
    {
        out.push(' ');
        assert(old(out)@ + spaces((i + 1) as nat) =~= old(out)@ + spaces(i as nat) + seq![' ']);
        i = i + 1;
    }
}

/// Appends `s` right-aligned to `w` characters.
fn push_right_aligned(out: &mut Vec<char>, s: &String, w: usize)
    ensures
        final(out)@ == old(out)@ + pad_left(s@, w as nat),
{
    let n = chars_of(s.as_str()).len();
    if n < w {
        push_spaces(out, w - n);
    }
    push_all(out, s);
    assert(out@ =~= old(out)@ + pad_left(s@, w as nat));
}

/// Appends `s` left-aligned to `w` characters.
fn push_left_aligned(out: &mut Vec<char>, s: &String, w: usize)
    ensures
        final(out)@ == old(out)@ + pad_right(s@, w as nat),
{
    let n = chars_of(s.as_str()).len();
    push_all(out, s);
    if n < w {
        push_spaces(out, w - n);
    }
    assert(out@ =~= old(out)@ + pad_right(s@, w as nat));
}

/// Appends one line of a long listing.
fn push_long_line(out: &mut Vec<char>, e: &LongEntry, wl: usize, wu: usize, wg: usize, ws: usize, wd: usize)
    ensures
        final(out)@ == old(out)@ + long_line(*e, (wl as nat, wu as nat, wg as nat, ws as nat, wd as nat)),
{
    push_all(out, &e.perms);
    out.push(' ');
    push_right_aligned(out, &e.links, wl);
    out.push(' ');
    push_left_aligned(out, &e.user, wu);
    out.push(' ');
    push_left_aligned(out, &e.group, wg);
    out.push(' ');
    push_right_aligned(out, &e.size, ws);
    out.push(' ');
    push_right_aligned(out, &e.date, wd);
    out.push(' ');
    push_all(out, &e.name);
    out.push('\n');
    assert(out@ =~= old(out)@ + long_line(*e, (wl as nat, wu as nat, wg as nat, ws as nat, wd as nat)));
}

/// The byte length of a string.
fn byte_length(s: &String) -> (r: usize)
    requires
        byte_len(s@) <= usize::MAX,
    ensures
        r == byte_len(s@),
{
    s.as_str().len()
}

/// Produces a column-aligned long listing from its rows: nothing for no
/// rows; otherwise, when `show_total`, a `total` line with half the block
/// count, then one line per row. Numeric columns and the date are
/// right-aligned, user and group left-aligned, each to the widest value of
/// its column counted in bytes.
pub fn align_and_format(entries: &Vec<LongEntry>, show_total: bool) -> (r: String)
    requires
        lengths_fit(entries@),
        sum_blocks(entries@) <= u64::MAX,
    ensures
        r@ == spec_align_and_format(entries@, show_total),
{
    if entries.len() == 0 {
        return String::new();
    }
    let ghost es = entries@;
    let mut wl: usize = 0;
    let mut wu: usize = 0;
    let mut wg: usize = 0;
    let mut ws: usize = 0;
    let mut wd: usize = 0;
    let mut total: u64 = 0;
    let mut i: usize = 0;
    while i < entries.len()
        invariant
            i <= entries.len(),
            es == entries@,
            lengths_fit(es),
            sum_blocks(es) <= u64::MAX,
            wl == max_byte_len(es.take(i as int).map_values(|e: LongEntry| e.links@)),
            wu == max_byte_len(es.take(i as int).map_values(|e: LongEntry| e.user@)),
            wg == max_byte_len(es.take(i as int).map_values(|e: LongEntry| e.group@)),
            ws == max_byte_len(es.take(i as int).map_values(|e: LongEntry| e.size@)),
            wd == max_byte_len(es.take(i as int).map_values(|e: LongEntry| e.date@)),
            total == sum_blocks(es.take(i as int)),
        decreases entries.len() - i,
    {
        let ghost t = es.take(i + 1);
        assert(t.drop_last() =~= es.take(i as int));
        assert(t.map_values(|e: LongEntry| e.links@).drop_last() =~= es.take(i as int).map_values(|e: LongEntry| e.links@));
        assert(t.map_values(|e: LongEntry| e.user@).drop_last() =~= es.take(i as int).map_values(|e: LongEntry| e.user@));
        assert(t.map_values(|e: LongEntry| e.group@).drop_last() =~= es.take(i as int).map_values(|e: LongEntry| e.group@));
        assert(t.map_values(|e: LongEntry| e.size@).drop_last() =~= es.take(i as int).map_values(|e: LongEntry| e.size@));
        assert(t.map_values(|e: LongEntry| e.date@).drop_last() =~= es.take(i as int).map_values(|e: LongEntry| e.date@));
        let e = &entries[i];
        assert(es[i as int] == *e);
        let l = byte_length(&e.links);
        if l > wl { wl = l; }
        let l = byte_length(&e.user);
        if l > wu { wu = l; }
        let l = byte_length(&e.group);
        if l > wg { wg = l; }
        let l = byte_length(&e.size);
        if l > ws { ws = l; }
        let l = byte_length(&e.date);
        if l > wd { wd = l; }
        proof {
            lemma_sum_blocks_prefix(es, (i + 1) as nat);
        }
        total = total + e.blocks;
        i = i + 1;
    }
    assert(es.take(entries.len() as int) =~= es);
    let ghost w = column_widths(es);
    assert(w == (wl as nat, wu as nat, wg as nat, ws as nat, wd as nat));
    let mut out: Vec<char> = Vec::new();
    if show_total {
        let t = string_from(&vec!['t', 'o', 't', 'a', 'l', ' ']);
        push_all(&mut out, &t);
        let d = u64_to_decimal(total / 2);
        push_all(&mut out, &d);
        out.push('\n');
        assert(out@ =~= total_line(es));
    }
    let ghost head = out@;
    let mut k: usize = 0;
    assert(es.take(0) =~= Seq::<LongEntry>::empty());
    assert(out@ =~= head + long_lines(es.take(0), w));
    while k < entries.len()
        invariant
            k <= entries.len(),
            es == entries@,
            w == (wl as nat, wu as nat, wg as nat, ws as nat, wd as nat),
            out@ == head + long_lines(es.take(k as int), w),
        decreases entries.len() - k,
    {
        let e = &entries[k];
        assert(es.take(k + 1).drop_last() =~= es.take(k as int));
        assert(es.take(k + 1).last() == *e);
        let ghost before = out@;
        push_long_line(&mut out, e, wl, wu, wg, ws, wd);
        assert(out@ =~= before + long_line(*e, w));
        k = k + 1;
    }
    assert(es.take(entries.len() as int) =~= es);
    string_from(&out)
}

/// The block sum of a prefix never exceeds that of the whole.
proof fn lemma_sum_blocks_prefix(es: Seq<LongEntry>, k: nat)
    requires
        k <= es.len(),
    ensures
        sum_blocks(es.take(k as int)) <= sum_blocks(es),
    decreases es.len() - k,
{
    if k < es.len() {
        lemma_sum_blocks_prefix(es, k + 1);
        assert(es.take(k + 1 as int).drop_last() =~= es.take(k as int));
    } else {
        assert(es.take(k as int) =~= es);
    }
}

// ───────────────────────────── device numbers ─────────────────────────────

/// The major number of a device ID.
///
/// Calls `libc::major`, which on Linux takes bits 8 to 19 and bits 44 to 63
/// of the ID (the latter shifted down by 32).
#[verifier::external_body]
fn device_major(dev: u64) -> (r: u32)
    ensures
        r == (((dev & 0x00000000000fff00u64) >> 8u64) | ((dev & 0xfffff00000000000u64) >> 32u64)) as u32,
{
    libc::major(dev)
}

/// The minor number of a device ID.
///
/// Calls `libc::minor`, which on Linux takes bits 0 to 7 and bits 20 to 43 of
/// the ID (the latter shifted down by 12).
#[verifier::external_body]
fn device_minor(dev: u64) -> (r: u32)
    ensures
        r == ((dev & 0x00000000000000ffu64) | ((dev & 0x00000ffffff00000u64) >> 12u64)) as u32,
{
    libc::minor(dev)
}

/// The size column of a block or character device: its major and minor
/// numbers, each right-aligned to three characters, separated by a comma.
pub open spec fn spec_device_size(dev: u64) -> Seq<char> {
    let major = (((dev & 0x00000000000fff00u64) >> 8u64) | ((dev & 0xfffff00000000000u64) >> 32u64)) as u32;
    let minor = ((dev & 0x00000000000000ffu64) | ((dev & 0x00000ffffff00000u64) >> 12u64)) as u32;
    pad_left(decimal(major as nat), 3) + seq![',', ' '] + pad_left(decimal(minor as nat), 3)
}

/// Renders the size column of a device file from its device ID, as
/// `{:>3}, {:>3}` writes its major and minor numbers.
pub fn device_size(dev: u64) -> (r: String)
    ensures
        r@ == spec_device_size(dev),
{
    let major = u64_to_decimal(device_major(dev) as u64);
    let minor = u64_to_decimal(device_minor(dev) as u64);
    let mut out: Vec<char> = Vec::new();
    push_right_aligned(&mut out, &major, 3);
    out.push(',');
    out.push(' ');
    push_right_aligned(&mut out, &minor, 3);
    assert(out@ =~= spec_device_size(dev));
    string_from(&out)
}


// ───────────────────────────── columns of a long entry ─────────────────────────────

/// The name column of a long listing: with `-F`, the indicator (not for
/// symbolic links); for a symbolic link whose target could be read,
/// ` -> ` and the target, itself with its indicator under `-F` when the
/// target's metadata could be read.
pub open spec fn spec_long_name(
    name: Seq<char>,
    kind: FileKind,
    mode: u32,
    flag_f: bool,
    target: Option<(Seq<char>, Option<(FileKind, u32)>)>,
) -> Seq<char> {
    let shown = if flag_f && kind != FileKind::Symlink {
        decorate(name, kind, mode)
    } else {
        name
    };
    match target {
        Some((t, meta)) => if kind == FileKind::Symlink {
            shown + seq![' ', '-', '>', ' '] + (if flag_f {
                symbol_name((t, meta))
            } else {
                t
            })
        } else {
            shown
        },
        None => shown,
    }
}

/// Renders the name column of a long listing.
pub fn long_name(
    name: String,
    kind: FileKind,
    mode: u32,
    flag_f: bool,
    target: Option<(String, Option<(FileKind, u32)>)>,
) -> (r: String)
    ensures
        r@ == spec_long_name(
            name@,
            kind,
            mode,
            flag_f,
            match target {
                Some((t, m)) => Some((t@, m)),
                None => None,
            },
        ),
{
    let mut shown = if flag_f && kind != FileKind::Symlink {
        append_indicator(name, kind, mode)
    } else {
        name
    };
    match target {
        Some((t, meta)) => {
            if kind == FileKind::Symlink {
                let t_shown = if flag_f {
                    match meta {
                        Some((k, m)) => append_indicator(t, k, m),
                        None => t,
                    }
                } else {
                    t
                };
                proof { reveal_strlit(" -> "); }
                shown.append(" -> ");
                shown.append(t_shown.as_str());
                assert(" -> "@ =~= seq![' ', '-', '>', ' ']);
            }
            shown
        },
        None => shown,
    }
}

/// The size column of a long listing: the device numbers of block and
/// character devices, else the length in bytes.
pub open spec fn spec_long_size(kind: FileKind, rdev: u64, len: u64) -> Seq<char> {
    if kind == FileKind::BlockDevice || kind == FileKind::CharDevice {
        spec_device_size(rdev)
    } else {
        decimal(len as nat)
    }
}

/// Renders the size column of a long listing.
pub fn long_size(kind: FileKind, rdev: u64, len: u64) -> (r: String)
    ensures
        r@ == spec_long_size(kind, rdev, len),
{
    if kind == FileKind::BlockDevice || kind == FileKind::CharDevice {
        device_size(rdev)
    } else {
        u64_to_decimal(len)
    }
}

/// What `ls -l` reads of one entry.
#[derive(Debug)]
pub struct EntryFacts {
    pub kind: FileKind,
    pub mode: u32,
    /// Whether the file has extended attributes.
    pub has_xattr: bool,
    pub nlink: u64,
    pub uid: u32,
    pub gid: u32,
    /// The name of the owner, when the user database has one.
    pub user: Option<String>,
    /// The name of the group, when the group database has one.
    pub group: Option<String>,
    /// The device ID, for device files.
    pub rdev: u64,
    pub len: u64,
    /// The modification date, already formatted.
    pub date: String,
    pub blocks: u64,
    /// For a symbolic link whose target could be read: the target, with its
    /// kind and mode when its metadata could be read.
    pub target: Option<(String, Option<(FileKind, u32)>)>,
}

/// The view of a symbolic link's target.
pub open spec fn target_view(t: Option<(String, Option<(FileKind, u32)>)>) -> Option<(Seq<char>, Option<(FileKind, u32)>)> {
    match t {
        Some((t, m)) => Some((t@, m)),
        None => None,
    }
}

/// A name from the user or group database, or the number when it has none.
pub open spec fn owner_name(name: Option<String>, id: u32) -> Seq<char> {
    match name {
        Some(n) => n@,
        None => decimal(id as nat),
    }
}

/// The name from the user or group database, or the number.
fn owner_text(name: Option<String>, id: u32) -> (r: String)
    ensures
        r@ == owner_name(name, id),
{
    match name {
        Some(n) => n,
        None => u64_to_decimal(id as u64),
    }
}

/// Builds the row of a long listing for an entry from what was read of it:
/// permissions, link count, owner and group (by name, else by number),
/// size, date, name (with `-F` indicators and a link's target) and blocks.
pub fn prepare_long_entry(name: String, facts: EntryFacts, flag: Flag) -> (e: LongEntry)
    ensures
        e.perms@ == permission_string(facts.kind, facts.mode, facts.has_xattr),
        e.links@ == decimal(facts.nlink as nat),
        e.user@ == owner_name(facts.user, facts.uid),
        e.group@ == owner_name(facts.group, facts.gid),
        e.size@ == spec_long_size(facts.kind, facts.rdev, facts.len),
        e.date@ == facts.date@,
        e.name@ == spec_long_name(name@, facts.kind, facts.mode, flag.f, target_view(facts.target)),
        e.blocks == facts.blocks,
{
    let EntryFacts { kind, mode, has_xattr, nlink, uid, gid, user, group, rdev, len, date, blocks, target } =
        facts;
    LongEntry {
        perms: format_permissions(kind, mode, has_xattr),
        links: u64_to_decimal(nlink),
        user: owner_text(user, uid),
        group: owner_text(group, gid),
        size: long_size(kind, rdev, len),
        date,
        name: long_name(name, kind, mode, flag.f, target),
        blocks,
    }
}

/// Whether the date column shows the year rather than the time: the file
/// was modified more than 180 days ago, or in the future. `elapsed` is the
/// time since the modification in seconds and nanoseconds, absent when the
/// modification lies in the future.
pub open spec fn spec_shows_year(elapsed: Option<(u64, u32)>) -> bool {
    match elapsed {
        None => true,
        Some((secs, nanos)) => secs > 15552000 || (secs == 15552000 && nanos > 0),
    }
}

/// The `strftime` pattern of the date column: month, day and year for old
/// or future dates, else month, day and time.
pub fn date_format(elapsed: Option<(u64, u32)>) -> (r: &'static str)
    ensures
        r@ == (if spec_shows_year(elapsed) {
            "%b %d  %Y"@
        } else {
            "%b %d %H:%M"@
        }),
{
    let old_or_future = match elapsed {
        None => true,
        Some((secs, nanos)) => secs > 15552000 || (secs == 15552000 && nanos > 0),
    };
    if old_or_future {
        "%b %d  %Y"
    } else {
        "%b %d %H:%M"
    }
}

// ───────────────────────────── the names of a listing ─────────────────────────────

/// Whether a name is hidden: it begins with a dot.
pub open spec fn is_hidden(name: Seq<char>) -> bool {
    name.len() > 0 && name[0] == '.'
}

/// The names without the hidden ones, in order.
pub open spec fn visible(names: Seq<Seq<char>>) -> Seq<Seq<char>>
    decreases names.len(),
{
    if names.len() == 0 {
        seq![]
    } else if is_hidden(names.last()) {
        visible(names.drop_last())
    } else {
        visible(names.drop_last()).push(names.last())
    }
}

/// Drops the hidden names.
pub fn drop_hidden(names: &Vec<String>) -> (r: Vec<String>)
    ensures
        views(r@) == visible(views(names@)),
{
    let mut r: Vec<String> = Vec::new();
    let mut i: usize = 0;
    assert(views(names@).take(0) =~= Seq::<Seq<char>>::empty());
    while i < names.len()
        invariant
            i <= names.len(),
            views(r@) == visible(views(names@).take(i as int)),
        decreases names.len() - i,
    {
        assert(views(names@).take(i + 1).drop_last() =~= views(names@).take(i as int));
        assert(views(names@).take(i + 1).last() == names@[i as int]@);
        let c = chars_of(names[i].as_str());
        if !(c.len() > 0 && c[0] == '.') {
            let x = names[i].clone();
            proof { lemma_views_push(r@, x); }
            r.push(x);
        }
        i = i + 1;
    }
    assert(views(names@).take(names.len() as int) =~= views(names@));
    r
}

/// The names of a short listing: `.` and `..` first where shown (each only
/// when its metadata could be read), the hidden entries only with `-a`,
/// sorted as [`crate::listing_order::sort_dir_names`] does.
pub open spec fn spec_dir_content(
    entries: Seq<Seq<char>>,
    show_hidden: bool,
    has_dot: bool,
    has_dotdot: bool,
) -> Seq<Seq<char>> {
    let specials = if show_hidden {
        (if has_dot { seq![seq!['.']] } else { seq![] }) + (if has_dotdot {
            seq![seq!['.', '.']]
        } else {
            seq![]
        })
    } else {
        seq![]
    };
    let names = specials + (if show_hidden {
        entries
    } else {
        visible(entries)
    });
    crate::listing_order::stable_sorted(
        names,
        names.map_values(|n: Seq<char>| crate::listing_order::dir_key(n)),
    )
}

/// No name that `visible` keeps is hidden.
proof fn lemma_visible_not_hidden(names: Seq<Seq<char>>)
    ensures
        forall|k: int| 0 <= k < visible(names).len() ==> !is_hidden(#[trigger] visible(names)[k]),
    decreases names.len(),
{
    if names.len() > 0 {
        let pre = names.drop_last();
        lemma_visible_not_hidden(pre);
        let v = visible(names);
        assert forall|k: int| 0 <= k < v.len() implies !is_hidden(#[trigger] v[k]) by {
            if k < visible(pre).len() {
                assert(v[k] == visible(pre)[k]);
            }
        }
    }
}

/// Law of the short listing: it shows every name it gathered exactly once
/// (`.` and `..` where shown, then the entries), in some order; without `-a`
/// it shows no hidden name.
pub proof fn lemma_short_listing_names(entries: Seq<Seq<char>>, show_hidden: bool, has_dot: bool, has_dotdot: bool)
    ensures
        spec_dir_content(entries, show_hidden, has_dot, has_dotdot).to_multiset() == (if show_hidden {
            (if has_dot { seq![seq!['.']] } else { seq![] }) + (if has_dotdot {
                seq![seq!['.', '.']]
            } else {
                seq![]
            }) + entries
        } else {
            visible(entries)
        }).to_multiset(),
        !show_hidden ==> forall|k: int|
            0 <= k < spec_dir_content(entries, show_hidden, has_dot, has_dotdot).len() ==> !is_hidden(
                #[trigger] spec_dir_content(entries, show_hidden, has_dot, has_dotdot)[k],
            ),
{
    let specials: Seq<Seq<char>> = if show_hidden {
        (if has_dot { seq![seq!['.']] } else { seq![] }) + (if has_dotdot {
            seq![seq!['.', '.']]
        } else {
            seq![]
        })
    } else {
        seq![]
    };
    let names = specials + (if show_hidden { entries } else { visible(entries) });
    let keys = names.map_values(|n: Seq<char>| crate::listing_order::dir_key(n));
    crate::listing_order::lemma_stable_sorted_permutation(names, keys);
    if !show_hidden {
        assert(names =~= visible(entries));
        lemma_visible_not_hidden(entries);
        let r = spec_dir_content(entries, show_hidden, has_dot, has_dotdot);
        assert forall|k: int| 0 <= k < r.len() implies !is_hidden(#[trigger] r[k]) by {
            broadcast use vstd::seq_lib::group_to_multiset_ensures;
            assert(r.to_multiset().count(r[k]) > 0);
            assert(names.to_multiset().count(r[k]) > 0);
            assert(names.contains(r[k]));
        }
    }
}

/// Gathers and orders the names of a short listing from the entries of the
/// directory.
pub fn dir_content(entries: &Vec<String>, show_hidden: bool, has_dot: bool, has_dotdot: bool) -> (r: Vec<String>)
    ensures
        views(r@) == spec_dir_content(views(entries@), show_hidden, has_dot, has_dotdot),
{
    let mut names: Vec<String> = Vec::new();
    proof {
        reveal_strlit(".");
        reveal_strlit("..");
    }
    if show_hidden {
        if has_dot {
            let d = String::from_str(".");
            assert(d@ =~= seq!['.']);
            proof { lemma_views_push(names@, d); }
            names.push(d);
        }
        if has_dotdot {
            let d = String::from_str("..");
            assert(d@ =~= seq!['.', '.']);
            proof { lemma_views_push(names@, d); }
            names.push(d);
        }
    }
    let ghost specials = views(names@);
    assert(specials =~= (if show_hidden {
        (if has_dot { seq![seq!['.']] } else { seq![] }) + (if has_dotdot {
            seq![seq!['.', '.']]
        } else {
            seq![]
        })
    } else {
        seq![]
    }));
    let rest = if show_hidden {
        let mut all: Vec<String> = Vec::new();
        let mut i: usize = 0;
        while i < entries.len()
            invariant
                i <= entries.len(),
                views(all@) == views(entries@).take(i as int),
            decreases entries.len() - i,
        {
            let x = entries[i].clone();
            proof { lemma_views_push(all@, x); }
            all.push(x);
            assert(views(entries@).take(i + 1) =~= views(entries@).take(i as int).push(entries@[i as int]@));
            i = i + 1;
        }
        assert(views(entries@).take(entries.len() as int) =~= views(entries@));
        all
    } else {
        drop_hidden(entries)
    };
    let mut k: usize = 0;
    let ghost base = views(names@);
    while k < rest.len()
        invariant
            k <= rest.len(),
            views(names@) == base + views(rest@).take(k as int),
        decreases rest.len() - k,
    {
        let x = rest[k].clone();
        proof { lemma_views_push(names@, x); }
        names.push(x);
        assert(base + views(rest@).take(k + 1) =~= (base + views(rest@).take(k as int)).push(rest@[k as int]@));
        k = k + 1;
    }
    assert(views(rest@).take(rest.len() as int) =~= views(rest@));
    crate::listing_order::sort_dir_names(&names)
}

/// The names of a long listing, in order: the entries sorted as
/// [`crate::listing_order::sort_long_names`] does, without the hidden ones
/// unless `-a` is given. (`.` and `..` are added by the caller first.)
pub fn long_listing_names(entries: &Vec<String>, show_hidden: bool) -> (r: Vec<String>)
    ensures
        views(r@) == (if show_hidden {
            crate::listing_order::stable_sorted(
                views(entries@),
                views(entries@).map_values(|n: Seq<char>| crate::listing_order::long_key(n)),
            )
        } else {
            visible(
                crate::listing_order::stable_sorted(
                    views(entries@),
                    views(entries@).map_values(|n: Seq<char>| crate::listing_order::long_key(n)),
                ),
            )
        }),
{
    let sorted = crate::listing_order::sort_long_names(entries);
    if show_hidden {
        sorted
    } else {
        drop_hidden(&sorted)
    }
}


// ───────────────────────────── the whole output ─────────────────────────────

/// What was read of one directory to list.
#[derive(Debug)]
pub enum DirListing {
    /// The rows of its long listing (`-l`).
    Long(Vec<LongEntry>),
    /// Its names in order, each with its kind and mode when its metadata
    /// could be read.
    Short(Vec<(String, Option<(FileKind, u32)>)>),
    /// It could not be read; the error text.
    Unreadable(String),
}

/// The model of what was read of a directory.
pub enum DirListingSpec {
    Long(Seq<LongEntry>),
    Short(Seq<(Seq<char>, Option<(FileKind, u32)>)>),
    Unreadable(Seq<char>),
}

impl View for DirListing {
    type V = DirListingSpec;

    open spec fn view(&self) -> DirListingSpec {
        match self {
            DirListing::Long(es) => DirListingSpec::Long(es@),
            DirListing::Short(ns) => DirListingSpec::Short(named_kinds_view(ns@)),
            DirListing::Unreadable(e) => DirListingSpec::Unreadable(e@),
        }
    }
}

/// A piece of output, for standard output or standard error.
#[derive(Debug, PartialEq)]
pub enum Output {
    Stdout(String),
    Stderr(String),
}

/// The model of a piece of output: whether it goes to standard error, and
/// its text.
pub open spec fn output_view(o: Output) -> (bool, Seq<char>) {
    match o {
        Output::Stdout(t) => (false, t@),
        Output::Stderr(t) => (true, t@),
    }
}

/// The message for an operand that does not exist.
pub open spec fn missing_message(path: Seq<char>) -> Seq<char> {
    "ls: cannot access '"@ + path + "': No such file or directory\n"@
}

/// The message for a directory that could not be read.
pub open spec fn unreadable_message(path: Seq<char>, err: Seq<char>) -> Seq<char> {
    "ls: cannot access '"@ + path + "': "@ + err + seq!['\n']
}

/// The line of a file operand in a short listing.
pub open spec fn file_line(e: (Seq<char>, Option<(FileKind, u32)>), flag: Flag) -> (bool, Seq<char>) {
    (false, (if flag.f {
        symbol_name(e)
    } else {
        e.0
    }) + seq!['\n'])
}

/// The output for the file operands.
pub open spec fn file_section(
    file_count: nat,
    short: Seq<(Seq<char>, Option<(FileKind, u32)>)>,
    long: Seq<LongEntry>,
    flag: Flag,
) -> Seq<(bool, Seq<char>)> {
    if file_count == 0 {
        seq![]
    } else if flag.l {
        if long.len() > 0 {
            seq![(false, spec_align_and_format(long, false))]
        } else {
            seq![]
        }
    } else {
        short.map_values(|e: (Seq<char>, Option<(FileKind, u32)>)| file_line(e, flag))
    }
}

/// The output for one directory, before its contents: a blank line between
/// sections, and a `path:` header when several things are listed.
pub open spec fn dir_header(path: Seq<char>, i: nat, file_count: nat, show_headers: bool) -> Seq<(bool, Seq<char>)> {
    (if i > 0 || file_count > 0 {
        seq![(false, seq!['\n'])]
    } else {
        seq![]
    }) + (if show_headers {
        seq![(false, path + seq![':', '\n'])]
    } else {
        seq![]
    })
}

/// The names of a listing with their `-F` indicators.
pub open spec fn symbol_names(ns: Seq<(Seq<char>, Option<(FileKind, u32)>)>) -> Seq<Seq<char>> {
    ns.map_values(|e: (Seq<char>, Option<(FileKind, u32)>)| symbol_name(e))
}

/// The names of a listing.
pub open spec fn plain_names(ns: Seq<(Seq<char>, Option<(FileKind, u32)>)>) -> Seq<Seq<char>> {
    ns.map_values(|e: (Seq<char>, Option<(FileKind, u32)>)| e.0)
}

/// The output for the contents of one directory.
pub open spec fn dir_body(path: Seq<char>, listing: DirListingSpec, flag: Flag) -> Seq<(bool, Seq<char>)> {
    match listing {
        DirListingSpec::Long(es) => seq![(false, spec_align_and_format(es, true))],
        DirListingSpec::Short(ns) => if flag.f {
            seq![(false, join(symbol_names(ns), seq![' ', ' ']) + seq!['\n'])]
        } else {
            let s = join(plain_names(ns), seq![' ', ' ']);
            if s.len() > 0 {
                seq![(false, s + seq!['\n'])]
            } else {
                seq![]
            }
        },
        DirListingSpec::Unreadable(err) => seq![(true, unreadable_message(path, err))],
    }
}

/// The output for the directories from the `i`-th on, and whether all could
/// be read: the listing stops at the first unreadable one.
#[verifier::opaque]
pub open spec fn dir_sections(
    dirs: Seq<(Seq<char>, DirListingSpec)>,
    i: nat,
    file_count: nat,
    show_headers: bool,
    flag: Flag,
) -> (Seq<(bool, Seq<char>)>, bool)
    decreases dirs.len() - i,
{
    if i >= dirs.len() {
        (seq![], true)
    } else {
        let (path, listing) = dirs[i as int];
        let here = dir_header(path, i, file_count, show_headers) + dir_body(path, listing, flag);
        if listing is Unreadable {
            (here, false)
        } else {
            let (rest, ok) = dir_sections(dirs, i + 1, file_count, show_headers, flag);
            (here + rest, ok)
        }
    }
}

/// The whole output of a listing, and whether every directory could be read.
pub open spec fn spec_render_list(
    missing: Seq<Seq<char>>,
    file_count: nat,
    short: Seq<(Seq<char>, Option<(FileKind, u32)>)>,
    long: Seq<LongEntry>,
    dirs: Seq<(Seq<char>, DirListingSpec)>,
    flag: Flag,
) -> (Seq<(bool, Seq<char>)>, bool) {
    let show_headers = file_count > 0 || dirs.len() > 1 || missing.len() > 0;
    let (d, ok) = dir_sections(dirs, 0, file_count, show_headers, flag);
    (missing.map_values(|p: Seq<char>| (true, missing_message(p))) + file_section(file_count, short, long, flag) + d, ok)
}

proof fn lemma_dir_sections_step(
    dirs: Seq<(Seq<char>, DirListingSpec)>,
    i: nat,
    file_count: nat,
    show_headers: bool,
    flag: Flag,
)
    requires
        i < dirs.len(),
    ensures
        ({
            let here = dir_header(dirs[i as int].0, i, file_count, show_headers) + dir_body(
                dirs[i as int].0,
                dirs[i as int].1,
                flag,
            );
            let next = dir_sections(dirs, i + 1, file_count, show_headers, flag);
            dir_sections(dirs, i, file_count, show_headers, flag) == (if dirs[i as int].1 is Unreadable {
                (here, false)
            } else {
                (here + next.0, next.1)
            })
        }),
{
    reveal(dir_sections);
}

proof fn lemma_dir_sections_end(
    dirs: Seq<(Seq<char>, DirListingSpec)>,
    file_count: nat,
    show_headers: bool,
    flag: Flag,
)
    ensures
        dir_sections(dirs, dirs.len(), file_count, show_headers, flag) == (Seq::<(bool, Seq<char>)>::empty(), true),
{
    reveal(dir_sections);
}

/// The model of the directories to list.
pub open spec fn dirs_view(dirs: Seq<(String, DirListing)>) -> Seq<(Seq<char>, DirListingSpec)> {
    dirs.map_values(|d: (String, DirListing)| (d.0@, d.1@))
}

/// Whether every long listing can be laid out.
pub open spec fn listings_fit(long: Seq<LongEntry>, dirs: Seq<(String, DirListing)>) -> bool {
    &&& lengths_fit(long)
    &&& sum_blocks(long) <= u64::MAX
    &&& forall|k: int| 0 <= k < dirs.len() ==> match (#[trigger] dirs[k]).1 {
        DirListing::Long(es) => lengths_fit(es@) && sum_blocks(es@) <= u64::MAX,
        _ => true,
    }
}

/// Appends text to the output list.
fn emit(out: &mut Vec<Output>, to_err: bool, text: String)
    ensures
        final(out)@.map_values(|o: Output| output_view(o)) == old(out)@.map_values(|o: Output| output_view(o)).push(
            (to_err, text@),
        ),
{
    if to_err {
        out.push(Output::Stderr(text));
    } else {
        out.push(Output::Stdout(text));
    }
    assert(out@.map_values(|o: Output| output_view(o)) =~= old(out)@.map_values(|o: Output| output_view(o)).push(
        (to_err, text@),
    ));
}

/// The model of a list of outputs.
pub open spec fn outputs_view(v: Seq<Output>) -> Seq<(bool, Seq<char>)> {
    v.map_values(|o: Output| output_view(o))
}

/// Emits the messages for the operands that do not exist.
fn emit_missing(out: &mut Vec<Output>, missing: &Vec<String>)
    ensures
        outputs_view(final(out)@) == outputs_view(old(out)@) + views(missing@).map_values(
            |p: Seq<char>| (true, missing_message(p)),
        ),
{
    let ghost mv = views(missing@);
    let ghost start = outputs_view(out@);
    let mut i: usize = 0;
    assert(outputs_view(out@) =~= start + mv.take(0).map_values(|p: Seq<char>| (true, missing_message(p))));
    while i < missing.len()
        invariant
            i <= missing.len(),
            mv == views(missing@),
            outputs_view(out@) == start + mv.take(i as int).map_values(|p: Seq<char>| (true, missing_message(p))),
        decreases missing.len() - i,
    {
        let mut m = String::from_str("ls: cannot access '");
        m.append(missing[i].as_str());
        m.append("': No such file or directory\n");
        emit(out, true, m);
        assert(mv[i as int] == missing@[i as int]@);
        assert(start + mv.take(i + 1).map_values(|p: Seq<char>| (true, missing_message(p))) =~= (start
            + mv.take(i as int).map_values(|p: Seq<char>| (true, missing_message(p)))).push((true, missing_message(mv[i as int]))));
        i = i + 1;
    }
    assert(mv.take(missing.len() as int) =~= mv);
}

/// Emits the output for the file operands.
fn emit_files(
    out: &mut Vec<Output>,
    file_count: usize,
    short: &Vec<(String, Option<(FileKind, u32)>)>,
    long: &Vec<LongEntry>,
    flag: Flag,
)
    requires
        lengths_fit(long@),
        sum_blocks(long@) <= u64::MAX,
    ensures
        outputs_view(final(out)@) == outputs_view(old(out)@) + file_section(
            file_count as nat,
            named_kinds_view(short@),
            long@,
            flag,
        ),
{
    let ghost start = outputs_view(out@);
    if file_count == 0 {
        assert(outputs_view(out@) =~= start + Seq::<(bool, Seq<char>)>::empty());
        return;
    }
    if flag.l {
        if long.len() > 0 {
            emit(out, false, align_and_format(long, false));
        } else {
            assert(outputs_view(out@) =~= start + Seq::<(bool, Seq<char>)>::empty());
        }
        return;
    }
    let ghost sv = named_kinds_view(short@);
    let mut k: usize = 0;
    assert(outputs_view(out@) =~= start + sv.take(0).map_values(|e: (Seq<char>, Option<(FileKind, u32)>)| file_line(e, flag)));
    while k < short.len()
        invariant
            k <= short.len(),
            sv == named_kinds_view(short@),
            outputs_view(out@) == start + sv.take(k as int).map_values(
                |e: (Seq<char>, Option<(FileKind, u32)>)| file_line(e, flag),
            ),
        decreases short.len() - k,
    {
        let name = short[k].0.clone();
        let mut shown = if flag.f {
            match short[k].1 {
                Some((kind, mode)) => append_indicator(name, kind, mode),
                None => name,
            }
        } else {
            name
        };
        crate::text::push_char(&mut shown, '\n');
        assert(sv[k as int] == (short@[k as int].0@, short@[k as int].1));
        assert((false, shown@) == file_line(sv[k as int], flag));
        emit(out, false, shown);
        assert(start + sv.take(k + 1).map_values(|e: (Seq<char>, Option<(FileKind, u32)>)| file_line(e, flag)) =~= (start
            + sv.take(k as int).map_values(|e: (Seq<char>, Option<(FileKind, u32)>)| file_line(e, flag))).push(
            file_line(sv[k as int], flag),
        ));
        k = k + 1;
    }
    assert(sv.take(short.len() as int) =~= sv);
}

/// Emits the blank line and the header before a directory.
fn emit_dir_header(out: &mut Vec<Output>, path: &String, i: usize, file_count: usize, show_headers: bool)
    ensures
        outputs_view(final(out)@) == outputs_view(old(out)@) + dir_header(
            path@,
            i as nat,
            file_count as nat,
            show_headers,
        ),
{
    proof {
        reveal_strlit("\n");
        reveal_strlit(":\n");
    }
    let ghost start = outputs_view(out@);
    if i > 0 || file_count > 0 {
        let nl = String::from_str("\n");
        assert(nl@ =~= seq!['\n']);
        emit(out, false, nl);
    }
    if show_headers {
        let mut h = path.clone();
        h.append(":\n");
        assert(h@ =~= path@ + seq![':', '\n']);
        emit(out, false, h);
    }
    assert(outputs_view(out@) =~= start + dir_header(path@, i as nat, file_count as nat, show_headers));
}

/// Emits the contents of a directory; returns whether it was unreadable.
fn emit_dir_body(out: &mut Vec<Output>, path: &String, listing: &DirListing, flag: Flag) -> (stop: bool)
    requires
        match listing {
            DirListing::Long(es) => lengths_fit(es@) && sum_blocks(es@) <= u64::MAX,
            _ => true,
        },
    ensures
        outputs_view(final(out)@) == outputs_view(old(out)@) + dir_body(path@, listing@, flag),
        stop == (listing@ is Unreadable),
{
    let ghost start = outputs_view(out@);
    match listing {
        DirListing::Long(es) => {
            emit(out, false, align_and_format(es, true));
            assert(outputs_view(out@) =~= start + dir_body(path@, listing@, flag));
            false
        },
        DirListing::Short(ns) => {
            let mut names: Vec<String> = Vec::new();
            let mut q: usize = 0;
            let ghost nv = named_kinds_view(ns@);
            while q < ns.len()
                invariant
                    q <= ns.len(),
                    nv == named_kinds_view(ns@),
                    views(names@) == (if flag.f {
                        symbol_names(nv.take(q as int))
                    } else {
                        plain_names(nv.take(q as int))
                    }),
                decreases ns.len() - q,
            {
                let name = ns[q].0.clone();
                let shown = if flag.f {
                    match ns[q].1 {
                        Some((kind, mode)) => append_indicator(name, kind, mode),
                        None => name,
                    }
                } else {
                    name
                };
                assert(nv[q as int] == (ns@[q as int].0@, ns@[q as int].1));
                proof { lemma_views_push(names@, shown); }
                names.push(shown);
                assert(symbol_names(nv.take(q + 1)) =~= symbol_names(nv.take(q as int)).push(symbol_name(nv[q as int])));
                assert(plain_names(nv.take(q + 1)) =~= plain_names(nv.take(q as int)).push(nv[q as int].0));
                q = q + 1;
            }
            assert(nv.take(ns.len() as int) =~= nv);
            proof { reveal_strlit("  "); }
            assert("  "@ =~= seq![' ', ' ']);
            let mut joined = join_strings(&names, "  ");
            let ghost j0 = joined@;
            assert(listing@ == DirListingSpec::Short(nv));
            assert(flag.f ==> j0 == join(symbol_names(nv), seq![' ', ' ']));
            assert(!flag.f ==> j0 == join(plain_names(nv), seq![' ', ' ']));
            assert(j0.push('\n') =~= j0 + seq!['\n']);
            if flag.f {
                crate::text::push_char(&mut joined, '\n');
                emit(out, false, joined);
            } else if joined.as_str().unicode_len() > 0 {
                crate::text::push_char(&mut joined, '\n');
                emit(out, false, joined);
            } else {
                assert(outputs_view(out@) =~= start + Seq::<(bool, Seq<char>)>::empty());
            }
            assert(outputs_view(out@) =~= start + dir_body(path@, listing@, flag));
            false
        },
        DirListing::Unreadable(err) => {
            let mut m = String::from_str("ls: cannot access '");
            m.append(path.as_str());
            m.append("': ");
            m.append(err.as_str());
            crate::text::push_char(&mut m, '\n');
            assert(m@ =~= unreadable_message(path@, err@));
            emit(out, true, m);
            assert(outputs_view(out@) =~= start + dir_body(path@, listing@, flag));
            true
        },
    }
}

/// Emits one directory: its header and its contents; returns whether it was
/// unreadable.
fn emit_dir(
    out: &mut Vec<Output>,
    path: &String,
    listing: &DirListing,
    i: usize,
    file_count: usize,
    show_headers: bool,
    flag: Flag,
) -> (stop: bool)
    requires
        match listing {
            DirListing::Long(es) => lengths_fit(es@) && sum_blocks(es@) <= u64::MAX,
            _ => true,
        },
    ensures
        outputs_view(final(out)@) == outputs_view(old(out)@) + (dir_header(
            path@,
            i as nat,
            file_count as nat,
            show_headers,
        ) + dir_body(path@, listing@, flag)),
        stop == (listing@ is Unreadable),
{
    let ghost start = outputs_view(out@);
    emit_dir_header(out, path, i, file_count, show_headers);
    let stop = emit_dir_body(out, path, listing, flag);
    assert(outputs_view(out@) =~= start + (dir_header(path@, i as nat, file_count as nat, show_headers) + dir_body(
        path@,
        listing@,
        flag,
    )));
    stop
}

/// The output of `ls` for what was read: first a message for each operand
/// that does not exist, then the file operands (`file_count` of them; those
/// whose metadata could be read are given, as names for a short listing or
/// as rows for a long one), then each directory, after a blank line between
/// sections and a `path:` header when more than one thing is listed. The
/// listing stops at the first directory that cannot be read; the result
/// says whether all could.
pub fn render_list(
    missing: &Vec<String>,
    file_count: usize,
    short: &Vec<(String, Option<(FileKind, u32)>)>,
    long: &Vec<LongEntry>,
    dirs: &Vec<(String, DirListing)>,
    flag: Flag,
) -> (r: (Vec<Output>, bool))
    requires
        listings_fit(long@, dirs@),
    ensures
        (outputs_view(r.0@), r.1) == spec_render_list(
            views(missing@),
            file_count as nat,
            named_kinds_view(short@),
            long@,
            dirs_view(dirs@),
            flag,
        ),
{
    let mut out: Vec<Output> = Vec::new();
    assert(outputs_view(out@) =~= Seq::<(bool, Seq<char>)>::empty());
    emit_missing(&mut out, missing);
    emit_files(&mut out, file_count, short, long, flag);
    let ghost mid = outputs_view(out@);
    assert(mid =~= views(missing@).map_values(|p: Seq<char>| (true, missing_message(p))) + file_section(
        file_count as nat,
        named_kinds_view(short@),
        long@,
        flag,
    ));
    let show_headers = file_count > 0 || dirs.len() > 1 || missing.len() > 0;
    let ghost dv = dirs_view(dirs@);
    let ghost full = dir_sections(dv, 0, file_count as nat, show_headers, flag);
    let ghost mut done: Seq<(bool, Seq<char>)> = Seq::empty();
    let mut j: usize = 0;
    assert(mid + done =~= mid);
    assert(done + full.0 =~= full.0);
    while j < dirs.len()
        invariant
            j <= dirs.len(),
            dv == dirs_view(dirs@),
            listings_fit(long@, dirs@),
            full == dir_sections(dv, 0, file_count as nat, show_headers, flag),
            full.0 == done + dir_sections(dv, j as nat, file_count as nat, show_headers, flag).0,
            show_headers == (file_count > 0 || dirs.len() > 1 || missing.len() > 0),
            mid == views(missing@).map_values(|p: Seq<char>| (true, missing_message(p))) + file_section(
                file_count as nat,
                named_kinds_view(short@),
                long@,
                flag,
            ),
            full.1 == dir_sections(dv, j as nat, file_count as nat, show_headers, flag).1,
            outputs_view(out@) == mid + done,
        decreases dirs.len() - j,
    {
        let path = &dirs[j].0;
        assert(dv[j as int] == (path@, dirs@[j as int].1@));
        assert(match dirs@[j as int].1 {
            DirListing::Long(es) => lengths_fit(es@) && sum_blocks(es@) <= u64::MAX,
            _ => true,
        });
        let stop = emit_dir(&mut out, path, &dirs[j].1, j, file_count, show_headers, flag);
        let ghost here = dir_header(path@, j as nat, file_count as nat, show_headers) + dir_body(path@, dv[j as int].1, flag);
        let ghost next = dir_sections(dv, (j + 1) as nat, file_count as nat, show_headers, flag);
        proof {
            lemma_dir_sections_step(dv, j as nat, file_count as nat, show_headers, flag);
            if !stop {
                assert(done + (here + next.0) =~= (done + here) + next.0);
            }
            assert(outputs_view(out@) =~= mid + (done + here));
            done = done + here;
        }
        if stop {
            assert(full.0 == done && full.1 == false);
            assert(outputs_view(out@) =~= mid + full.0);
            return (out, false);
        }
        j = j + 1;
    }
    proof { lemma_dir_sections_end(dv, file_count as nat, show_headers, flag); }
    assert(done + Seq::<(bool, Seq<char>)>::empty() =~= done);
    assert(full.0 == done && full.1 == true);
    (out, true)
}

} // verus!