//! The decisions of the built-in commands `cd`, `cp`, `mv`, `rm` and `echo`:
//! argument checks and what to do with each operand. The file-system work
//! itself is the caller's.
use vstd::prelude::*;
use crate::pwd_state::PwdState;
use crate::text::{
    chars_of, join, join_strings, lemma_views_push, sanitize, split_on, unescape_newlines,
    unescape_newlines_string, views,
};

verus! {

// ───────────────────────────── paths ─────────────────────────────

/// Whether a part of a path is a component that `Path::components`
/// reports as a name or `..`: repeated separators give empty parts, which
/// are ignored, and `.` is normalized away (at the start of a path it is
/// the current directory, never a name).
pub open spec fn is_component(part: Seq<char>) -> bool {
    part.len() > 0 && part != seq!['.']
}

/// The final component of a path as `Path::file_name` documents it: the
/// last of the named components after splitting at `/` (`None` when there
/// is none, as for `/`, `.` and the empty path, or when it is `..`).
pub open spec fn path_file_name(path: Seq<char>) -> Option<Seq<char>> {
    let parts = split_on(path, '/').filter(|p: Seq<char>| is_component(p));
    if parts.len() == 0 || parts.last() == seq!['.', '.'] {
        None
    } else {
        Some(parts.last())
    }
}

/// The final component of a path.
///
/// Calls `std::path::Path::file_name`, which returns the last component of
/// the path when it is a name, and `None` when the path ends in `..` or has
/// no component (`Path::components` ignores repeated separators and
/// normalizes `.` away). Since the path is valid UTF-8, so is its final
/// component, and the conversion back to a `String` keeps it unchanged.
#[verifier::external_body]
pub(crate) fn file_name(path: &str) -> (r: Option<String>)
    ensures
        match r {
            Some(n) => path_file_name(path@) == Some(n@),
            None => path_file_name(path@) is None,
        },
{
    std::path::Path::new(path).file_name().map(|n| n.to_string_lossy().into_owned())
}

/// `dir` joined with `name` as `Path::join` joins Unix paths: an absolute
/// `name` replaces `dir`; otherwise one `/` goes between them, unless `dir`
/// is empty or already ends with one.
pub open spec fn spec_join_path(dir: Seq<char>, name: Seq<char>) -> Seq<char> {
    if name.len() > 0 && name[0] == '/' {
        name
    } else if dir.len() == 0 || dir.last() == '/' {
        dir + name
    } else {
        dir + seq!['/'] + name
    }
}

/// Joins two paths.
pub fn join_path(dir: &str, name: &str) -> (r: String)
    ensures
        r@ == spec_join_path(dir@, name@),
{
    let n = chars_of(name);
    if n.len() > 0 && n[0] == '/' {
        return String::from_str(name);
    }
    let d = chars_of(dir);
    let mut r = String::from_str(dir);
    if !(d.len() == 0 || d[d.len() - 1] == '/') {
        crate::text::push_char(&mut r, '/');
    }
    r.append(name);
    r
}

/// Where `cp` puts a source: into a destination directory under the
/// source's file name (nowhere when the source has none), else onto the
/// destination itself.
pub open spec fn spec_copy_target(source: Seq<char>, dest: Seq<char>, dest_is_dir: bool) -> Option<Seq<char>> {
    if dest_is_dir {
        match path_file_name(source) {
            Some(n) => Some(spec_join_path(dest, n)),
            None => None,
        }
    } else {
        Some(dest)
    }
}

/// The path that `cp` writes for one source.
pub fn copy_target(source: &str, destination: &str, dest_is_dir: bool) -> (r: Option<String>)
    ensures
        opt_view(r) == spec_copy_target(source@, destination@, dest_is_dir),
{
    if dest_is_dir {
        match file_name(source) {
            Some(n) => Some(join_path(destination, n.as_str())),
            None => None,
        }
    } else {
        Some(String::from_str(destination))
    }
}

/// Where `mv` moves its one source: into a destination directory under the
/// source's file name (onto the directory itself when the source has none),
/// else onto the destination.
pub open spec fn spec_move_target(source: Seq<char>, dest: Seq<char>, dest_is_dir: bool) -> Seq<char> {
    if dest_is_dir {
        match path_file_name(source) {
            Some(n) => spec_join_path(dest, n),
            None => dest,
        }
    } else {
        dest
    }
}

/// The path that `mv SOURCE DEST` renames its source to.
pub fn move_target(source: &str, destination: &str, dest_is_dir: bool) -> (r: String)
    ensures
        r@ == spec_move_target(source@, destination@, dest_is_dir),
{
    if dest_is_dir {
        match file_name(source) {
            Some(n) => join_path(destination, n.as_str()),
            None => String::from_str(destination),
        }
    } else {
        String::from_str(destination)
    }
}

// ───────────────────────────── echo ─────────────────────────────

/// The line that `echo` prints: its arguments separated by single spaces.
pub fn echo(args: &Vec<String>) -> (r: String)
    ensures
        r@ == join(views(args@), seq![' ']),
{
    proof { reveal_strlit(" "); }
    assert(" "@ =~= seq![' ']);
    join_strings(args, " ")
}

// ───────────────────────────── cd ─────────────────────────────

/// Why `cd` refuses to start.
#[derive(Debug, Clone, Copy, PartialEq, Eq, Structural)]
pub enum CdError {
    /// More than one argument (`cd: too many arguments`).
    TooManyArguments,
    /// The target is the home directory but `HOME` is unset.
    HomeNotSet,
}

/// Where `cd` goes.
#[derive(Debug)]
pub struct CdPlan {
    /// The directory to change to.
    pub target: String,
    /// Whether `cd` prints the new directory afterwards (for `cd -`).
    pub print_new_dir: bool,
}

/// The view of an optional string.
pub open spec fn opt_view(o: Option<String>) -> Option<Seq<char>> {
    match o {
        Some(s) => Some(s@),
        None => None,
    }
}

/// The argument of `cd` as it is used: written-out `\n` turned back into
/// line feeds.
pub open spec fn cd_arg(args: Seq<Seq<char>>) -> Seq<char> {
    unescape_newlines(args[0])
}

/// The model of `plan_cd`: the target and whether to print it, or the error.
pub open spec fn spec_plan_cd(args: Seq<Seq<char>>, home: Option<Seq<char>>, old_dir: Seq<char>) -> Result<(Seq<char>, bool), CdError> {
    if args.len() > 1 {
        Err(CdError::TooManyArguments)
    } else if args.len() == 0 || cd_arg(args) == seq!['~'] {
        match home {
            Some(h) => Ok((h, false)),
            None => Err(CdError::HomeNotSet),
        }
    } else if cd_arg(args) == seq!['-'] {
        Ok((old_dir, true))
    } else {
        Ok((cd_arg(args), false))
    }
}

/// Decides where `cd` goes, given its (sanitised) arguments, the value of
/// `HOME` and the directory state: no argument or `~` goes home, `-` goes to
/// the previous directory (and prints it), anything else is the path, with
/// written-out `\n` turned back into line feeds. More than one argument is an
/// error.
pub fn plan_cd(args: &Vec<String>, home: Option<String>, state: &PwdState) -> (r: Result<CdPlan, CdError>)
    ensures
        match r {
            Ok(p) => spec_plan_cd(views(args@), opt_view(home), state@.1) == Ok::<
                (Seq<char>, bool),
                CdError,
            >((p.target@, p.print_new_dir)),
            Err(e) => spec_plan_cd(views(args@), opt_view(home), state@.1) == Err::<
                (Seq<char>, bool),
                CdError,
            >(e),
        },
{
    if args.len() > 1 {
        return Err(CdError::TooManyArguments);
    }
    proof {
        reveal_strlit("~");
        reveal_strlit("-");
    }
    let tilde = String::from_str("~");
    let dash = String::from_str("-");
    assert(tilde@ =~= seq!['~']);
    assert(dash@ =~= seq!['-']);
    if args.len() == 0 {
        return match home {
            Some(h) => Ok(CdPlan { target: h, print_new_dir: false }),
            None => Err(CdError::HomeNotSet),
        };
    }
    let arg = unescape_newlines_string(&args[0]);
    if arg == tilde {
        match home {
            Some(h) => Ok(CdPlan { target: h, print_new_dir: false }),
            None => Err(CdError::HomeNotSet),
        }
    } else if arg == dash {
        Ok(CdPlan { target: state.get_old_dir(), print_new_dir: true })
    } else {
        Ok(CdPlan { target: arg, print_new_dir: false })
    }
}

/// Law of `cd -`: after a successful `cd` away from a directory, recorded
/// with `PwdState::after_cd`, `cd -` leads back to that directory and prints
/// it; once that `cd -` is recorded too, another `cd -` leads back again.
pub proof fn lemma_cd_back(
    before: PwdState,
    after: PwdState,
    back: PwdState,
    new_dir: Seq<char>,
    home: Option<Seq<char>>,
)
    requires
        after@ == (new_dir, before@.0),
        back@ == (before@.0, after@.0),
    ensures
        spec_plan_cd(seq![seq!['-']], home, after@.1) == Ok::<(Seq<char>, bool), CdError>((before@.0, true)),
        spec_plan_cd(seq![seq!['-']], home, back@.1) == Ok::<(Seq<char>, bool), CdError>((new_dir, true)),
{
    assert(unescape_newlines(seq!['-']) =~= seq!['-']) by {
        reveal_with_fuel(unescape_newlines, 2);
    }
}

/// Law of `cd` paths: parsing hands `cd` its argument with line feeds
/// written out as `\n`, and `cd` turns them back; so a path without
/// backslashes (other than `~` and `-`) is the directory `cd` goes to, as
/// typed, and `cd` prints nothing.
pub proof fn lemma_cd_path_as_typed(path: Seq<char>, home: Option<Seq<char>>, old_dir: Seq<char>)
    requires
        forall|i: int| 0 <= i < path.len() ==> path[i] != '\\',
        path != seq!['~'],
        path != seq!['-'],
    ensures
        spec_plan_cd(seq![sanitize(path)], home, old_dir) == Ok::<(Seq<char>, bool), CdError>((path, false)),
{
    crate::text::lemma_unescape_sanitize(path);
}

/// The kinds of I/O error that `cd` tells apart.
#[derive(Debug, Clone, Copy, PartialEq, Eq, Structural)]
pub enum IoErrorKind {
    NotFound,
    PermissionDenied,
    Other,
}

/// The error code for "not a directory".
///
/// Reads `libc::ENOTDIR`, which is 20 on Linux.
#[verifier::external_body]
fn enotdir() -> (r: i32)
    ensures
        r == 20,
{
    libc::ENOTDIR
}

/// Which message `cd` gives for a failed change of directory.
#[derive(Debug, Clone, Copy, PartialEq, Eq, Structural)]
pub enum CdFailure {
    /// `cd: No such file or directory: <path>`
    NoSuchFile,
    /// `cd: Permission denied: <path>`
    PermissionDenied,
    /// `cd: Not a directory: <path>`
    NotADirectory,
    /// `cd: <path>: <error>`
    Other,
}

/// Classifies a failed change of directory by its error kind and raw OS
/// error code: not found, permission denied, else "not a directory" when the
/// code is `ENOTDIR` (20 on Linux), else the plain error.
pub fn cd_failure(kind: IoErrorKind, raw_os_error: Option<i32>) -> (r: CdFailure)
    ensures
        r == (match kind {
            IoErrorKind::NotFound => CdFailure::NoSuchFile,
            IoErrorKind::PermissionDenied => CdFailure::PermissionDenied,
            IoErrorKind::Other => if raw_os_error == Some(20i32) {
                CdFailure::NotADirectory
            } else {
                CdFailure::Other
            },
        }),
{
    match kind {
        IoErrorKind::NotFound => CdFailure::NoSuchFile,
        IoErrorKind::PermissionDenied => CdFailure::PermissionDenied,
        IoErrorKind::Other => {
            match raw_os_error {
                Some(code) => if code == enotdir() {
                    CdFailure::NotADirectory
                } else {
                    CdFailure::Other
                },
                None => CdFailure::Other,
            }
        },
    }
}

/// The path that an error message of `cd` names: the raw argument when
/// there is one, else the argument as used, else nothing.
pub open spec fn spec_cd_display(raw: Seq<Seq<char>>, args: Seq<Seq<char>>) -> Seq<char> {
    if raw.len() > 0 {
        raw[0]
    } else if args.len() > 0 {
        cd_arg(args)
    } else {
        seq![]
    }
}

/// The path that an error message of `cd` names.
pub fn cd_display(raw: &Vec<String>, args: &Vec<String>) -> (r: String)
    ensures
        r@ == spec_cd_display(views(raw@), views(args@)),
{
    if raw.len() > 0 {
        raw[0].clone()
    } else if args.len() > 0 {
        unescape_newlines_string(&args[0])
    } else {
        String::new()
    }
}

// ───────────────────────────── cp ─────────────────────────────

/// Why `cp` refuses its arguments.
#[derive(Debug, Clone, Copy, PartialEq, Eq, Structural)]
pub enum CpError {
    /// No argument: `cp: missing file operand`.
    MissingFileOperand,
    /// One argument: `cp: missing destination file operand after '<it>'`.
    MissingDestination,
    /// Several sources and the destination is no directory.
    TargetNotADirectory,
}

/// What `cp` does with one source.
#[derive(Debug, Clone, Copy, PartialEq, Eq, Structural)]
pub enum CpStep {
    /// Copy the source with this index.
    Copy(usize),
    /// Skip the source with this index: an earlier source has the same file
    /// name, so both would land on the same destination (a warning).
    Duplicate(usize),
}

/// The steps for the sources of a multi-source copy, given their file names.
pub open spec fn cp_steps(names: Seq<Option<Seq<char>>>) -> Seq<CpStep>
    decreases names.len(),
{
    if names.len() == 0 {
        seq![]
    } else {
        let i = (names.len() - 1) as usize;
        let rest = cp_steps(names.drop_last());
        if names.last() is Some && names.drop_last().contains(names.last()) {
            rest.push(CpStep::Duplicate(i))
        } else {
            rest.push(CpStep::Copy(i))
        }
    }
}

/// What `cp_steps` does with each source: the step at position `k` is for
/// source `k`; it skips the source exactly when it has a file name that an
/// earlier source has.
proof fn lemma_cp_steps_at(names: Seq<Option<Seq<char>>>)
    requires
        names.len() <= usize::MAX,
    ensures
        cp_steps(names).len() == names.len(),
        forall|k: int|
            0 <= k < names.len() ==> #[trigger] cp_steps(names)[k] == (if names[k] is Some && names.take(
                k,
            ).contains(names[k]) {
                CpStep::Duplicate(k as usize)
            } else {
                CpStep::Copy(k as usize)
            }),
    decreases names.len(),
{
    if names.len() > 0 {
        let pre = names.drop_last();
        lemma_cp_steps_at(pre);
        assert forall|k: int| 0 <= k < names.len() implies #[trigger] cp_steps(names)[k] == (if names[k] is Some
            && names.take(k).contains(names[k]) {
            CpStep::Duplicate(k as usize)
        } else {
            CpStep::Copy(k as usize)
        }) by {
            if k < pre.len() {
                assert(cp_steps(names)[k] == cp_steps(pre)[k]);
                assert(pre.take(k) =~= names.take(k));
                assert(pre[k] == names[k]);
            } else {
                assert(names.take(k) =~= pre);
            }
        }
    }
}

/// Law of `cp` with several sources: each source is either copied or
/// skipped, and it is skipped exactly when an earlier source has the same
/// file name. So no two copied sources share a file name: no copy lands on
/// another one's destination.
pub proof fn lemma_cp_copies_distinct_names(names: Seq<Option<Seq<char>>>)
    requires
        names.len() <= usize::MAX,
    ensures
        cp_steps(names).len() == names.len(),
        forall|k: int|
            0 <= k < names.len() ==> (#[trigger] cp_steps(names)[k] == CpStep::Copy(k as usize)
                || cp_steps(names)[k] == CpStep::Duplicate(k as usize)),
        forall|k: int|
            0 <= k < names.len() ==> (#[trigger] cp_steps(names)[k] is Duplicate <==> (names[k] is Some
                && exists|i: int| 0 <= i < k && names[i] == names[k])),
        forall|i: int, j: int|
            0 <= i < j < names.len() && #[trigger] cp_steps(names)[i] is Copy && #[trigger] cp_steps(names)[j] is Copy
                && names[j] is Some ==> names[i] != names[j],
{
    lemma_cp_steps_at(names);
    assert forall|k: int| 0 <= k < names.len() implies (#[trigger] cp_steps(names)[k] is Duplicate <==> (
    names[k] is Some && exists|i: int| 0 <= i < k && names[i] == names[k])) by {
        if names[k] is Some && exists|i: int| 0 <= i < k && names[i] == names[k] {
            let i = choose|i: int| 0 <= i < k && names[i] == names[k];
            assert(names.take(k)[i] == names[k]);
        }
        if names.take(k).contains(names[k]) {
            let i = choose|i: int| 0 <= i < names.take(k).len() && names.take(k)[i] == names[k];
            assert(names[i] == names[k]);
        }
    }
    assert forall|i: int, j: int|
        0 <= i < j < names.len() && #[trigger] cp_steps(names)[i] is Copy && #[trigger] cp_steps(names)[j] is Copy
            && names[j] is Some implies names[i] != names[j] by {
        if names[i] == names[j] {
            assert(names.take(j)[i] == names[j]);
        }
    }
}

/// The model of `plan_cp`.
pub open spec fn spec_plan_cp(args: Seq<Seq<char>>, dest_is_dir: bool) -> Result<Seq<CpStep>, CpError> {
    if args.len() == 0 {
        Err(CpError::MissingFileOperand)
    } else if args.len() < 2 {
        Err(CpError::MissingDestination)
    } else if args.len() == 2 {
        Ok(seq![CpStep::Copy(0)])
    } else if !dest_is_dir {
        Err(CpError::TargetNotADirectory)
    } else {
        Ok(cp_steps(args.drop_last().map_values(|a: Seq<char>| path_file_name(a))))
    }
}

/// Plans `cp SOURCE DEST` and `cp SOURCE... DIRECTORY`: the last argument is
/// the destination; with several sources it must be a directory, and a
/// source whose file name an earlier source already has is skipped with a
/// warning. Each `Copy` step copies one source (into the destination when
/// it is a directory).
pub fn plan_cp(args: &Vec<String>, dest_is_dir: bool) -> (r: Result<Vec<CpStep>, CpError>)
    ensures
        match r {
            Ok(steps) => spec_plan_cp(views(args@), dest_is_dir) == Ok::<Seq<CpStep>, CpError>(steps@),
            Err(e) => spec_plan_cp(views(args@), dest_is_dir) == Err::<Seq<CpStep>, CpError>(e),
        },
{
    if args.len() == 0 {
        return Err(CpError::MissingFileOperand);
    }
    if args.len() < 2 {
        return Err(CpError::MissingDestination);
    }
    if args.len() == 2 {
        let steps = vec![CpStep::Copy(0)];
        assert(steps@ =~= seq![CpStep::Copy(0)]);
        return Ok(steps);
    }
    if !dest_is_dir {
        return Err(CpError::TargetNotADirectory);
    }
    let n = args.len() - 1;
    let ghost names = views(args@).drop_last().map_values(|a: Seq<char>| path_file_name(a));
    let mut seen: Vec<String> = Vec::new();
    let mut steps: Vec<CpStep> = Vec::new();
    let mut i: usize = 0;
    assert(names.take(0) =~= Seq::<Option<Seq<char>>>::empty());
    while i < n
        invariant
            i <= n == args.len() - 1,
            names == views(args@).drop_last().map_values(|a: Seq<char>| path_file_name(a)),
            steps@ == cp_steps(names.take(i as int)),
            forall|x: Seq<char>| views(seen@).contains(x) <==> names.take(i as int).contains(Some(x)),
        decreases n - i,
    {
        let ghost t = names.take(i + 1);
        assert(t.drop_last() =~= names.take(i as int));
        assert(t.last() == path_file_name(args@[i as int]@));
        match file_name(args[i].as_str()) {
            Some(name) => {
                if crate::completion::contains_string(&seen, &name) {
                    assert(names.take(i as int).contains(Some(name@)));
                    steps.push(CpStep::Duplicate(i));
                } else {
                    let ghost pre = views(seen@);
                    proof { lemma_views_push(seen@, name); }
                    seen.push(name);
                    assert(!names.take(i as int).contains(Some(name@)));
                    steps.push(CpStep::Copy(i));
                    proof {
                        assert forall|x: Seq<char>| views(seen@).contains(x) <==> t.contains(Some(x)) by {
                            crate::text::lemma_contains_push(pre, name@, x);
                            crate::text::lemma_contains_push(names.take(i as int), Some(name@), Some(x));
                        }
                    }
                }
            },
            None => {
                steps.push(CpStep::Copy(i));
                proof {
                    assert forall|x: Seq<char>| views(seen@).contains(x) <==> t.contains(Some(x)) by {
                        crate::text::lemma_contains_push(names.take(i as int), None, Some(x));
                    }
                }
            },
        }
        i = i + 1;
    }
    assert(names.take(n as int) =~= names);
    Ok(steps)
}

// ───────────────────────────── mv ─────────────────────────────

/// Why `mv` refuses its arguments.
#[derive(Debug, Clone, Copy, PartialEq, Eq, Structural)]
pub enum MvError {
    /// Fewer than two arguments: `mv: missing operand`.
    MissingOperand,
    /// Several sources and the destination is no directory.
    TargetNotADirectory,
}

/// What `mv` does.
#[derive(Debug, PartialEq)]
pub enum MvPlan {
    /// Move the first argument to the second (into it, when it is a directory).
    Single,
    /// Move each listed source (by index) into the destination directory,
    /// under its file name; sources without a file name are left alone.
    Into(Vec<(usize, String)>),
}

/// The sources of a multi-source move that have a file name, with it.
pub open spec fn mv_moves(srcs: Seq<Seq<char>>) -> Seq<(usize, Seq<char>)>
    decreases srcs.len(),
{
    if srcs.len() == 0 {
        seq![]
    } else {
        let rest = mv_moves(srcs.drop_last());
        match path_file_name(srcs.last()) {
            Some(n) => rest.push(((srcs.len() - 1) as usize, n)),
            None => rest,
        }
    }
}

/// The view of planned moves.
pub open spec fn moves_view(v: Seq<(usize, String)>) -> Seq<(usize, Seq<char>)> {
    v.map_values(|p: (usize, String)| (p.0, p.1@))
}

/// Plans `mv SOURCE DEST` and `mv SOURCE... DIRECTORY`.
pub fn plan_mv(args: &Vec<String>, dest_is_dir: bool) -> (r: Result<MvPlan, MvError>)
    ensures
        args@.len() < 2 ==> r == Err::<MvPlan, MvError>(MvError::MissingOperand),
        args@.len() == 2 ==> r matches Ok(MvPlan::Single),
        args@.len() > 2 && !dest_is_dir ==> r == Err::<MvPlan, MvError>(MvError::TargetNotADirectory),
        args@.len() > 2 && dest_is_dir ==> (r matches Ok(MvPlan::Into(m)) && moves_view(m@) == mv_moves(
            views(args@).drop_last(),
        )),
{
    if args.len() < 2 {
        return Err(MvError::MissingOperand);
    }
    if args.len() == 2 {
        return Ok(MvPlan::Single);
    }
    if !dest_is_dir {
        return Err(MvError::TargetNotADirectory);
    }
    let n = args.len() - 1;
    let ghost srcs = views(args@).drop_last();
    let mut moves: Vec<(usize, String)> = Vec::new();
    let mut i: usize = 0;
    assert(srcs.take(0) =~= Seq::<Seq<char>>::empty());
    assert(moves_view(moves@) =~= Seq::<(usize, Seq<char>)>::empty());
    while i < n
        invariant
            i <= n == args.len() - 1,
            srcs == views(args@).drop_last(),
            moves_view(moves@) == mv_moves(srcs.take(i as int)),
        decreases n - i,
    {
        assert(srcs.take(i + 1).drop_last() =~= srcs.take(i as int));
        assert(srcs.take(i + 1).last() == args@[i as int]@);
        match file_name(args[i].as_str()) {
            Some(name) => {
                moves.push((i, name));
                assert(moves_view(moves@) =~= mv_moves(srcs.take(i + 1)));
            },
            None => {},
        }
        i = i + 1;
    }
    assert(srcs.take(n as int) =~= srcs);
    Ok(MvPlan::Into(moves))
}

// ───────────────────────────── rm ─────────────────────────────

/// Why `rm` refuses its arguments.
#[derive(Debug, Clone, Copy, PartialEq, Eq, Structural)]
pub enum RmError {
    /// An unknown option letter: `rm: invalid option -- '<c>'`.
    InvalidOption(char),
    /// No path to remove: `rm: missing operand`.
    MissingOperand,
}

/// What `rm` does.
#[derive(Debug)]
pub struct RmPlan {
    /// Whether directories are removed with their contents.
    pub recursive: bool,
    /// Each path to remove, with whether it is refused because its last
    /// component as typed is `.` or `..`.
    pub targets: Vec<(String, bool)>,
}

/// The long and combined forms of the recursive option.
pub open spec fn is_recursive_word(a: Seq<char>) -> bool {
    a == "--recursive"@ || a == seq!['-', 'r'] || a == seq!['-', 'R'] || a == seq!['-', 'r', 'f'] || a
        == seq!['-', 'f', 'r']
}

/// Whether `c` is a valid option letter of `rm`.
pub open spec fn rm_letter(c: char) -> bool {
    c == 'r' || c == 'R' || c == 'f'
}

/// The first invalid letter of an option, after its `-`.
pub open spec fn first_bad_letter(a: Seq<char>, from: nat) -> Option<char>
    decreases a.len() - from,
{
    if from >= a.len() {
        None
    } else if !rm_letter(a[from as int]) {
        Some(a[from as int])
    } else {
        first_bad_letter(a, from + 1)
    }
}

/// Reads the options of `rm` from the left: whether it removes recursively,
/// or the first invalid option letter.
pub open spec fn rm_options(args: Seq<Seq<char>>) -> Result<bool, char>
    decreases args.len(),
{
    if args.len() == 0 {
        Ok(false)
    } else {
        match rm_options(args.drop_last()) {
            Err(c) => Err(c),
            Ok(rec) => {
                let a = args.last();
                if is_recursive_word(a) {
                    Ok(true)
                } else if a.len() > 0 && a[0] == '-' {
                    match first_bad_letter(a, 1) {
                        Some(c) => Err(c),
                        None => Ok(rec || a.len() > 1),
                    }
                } else {
                    Ok(rec)
                }
            },
        }
    }
}

/// The paths among the arguments of `rm`: those that do not begin with `-`.
pub open spec fn rm_paths(args: Seq<Seq<char>>) -> Seq<Seq<char>>
    decreases args.len(),
{
    if args.len() == 0 {
        seq![]
    } else {
        let rest = rm_paths(args.drop_last());
        let a = args.last();
        if a.len() > 0 && a[0] == '-' {
            rest
        } else {
            rest.push(a)
        }
    }
}

/// `s` without its trailing `/`s.
pub open spec fn trim_end_slashes(s: Seq<char>) -> Seq<char>
    decreases s.len(),
{
    if s.len() > 0 && s.last() == '/' {
        trim_end_slashes(s.drop_last())
    } else {
        s
    }
}

/// Where the last component of `s` begins: after its last `/`.
pub open spec fn component_start(s: Seq<char>) -> nat
    decreases s.len(),
{
    if s.len() == 0 || s.last() == '/' {
        s.len()
    } else {
        component_start(s.drop_last())
    }
}

/// The last component of a path as typed: what follows its last `/`, once
/// trailing `/`s are dropped.
pub open spec fn typed_last_component(path: Seq<char>) -> Seq<char> {
    let t = trim_end_slashes(path);
    t.skip(component_start(t) as int)
}

/// Whether `rm` refuses a path: its last component as typed is `.` or `..`
/// (so `.`, `..`, `x/.`, `x/..`, with or without trailing `/`s).
pub open spec fn rm_refuses(path: Seq<char>) -> bool {
    typed_last_component(path) == seq!['.'] || typed_last_component(path) == seq!['.', '.']
}

proof fn lemma_component_start_bound(s: Seq<char>)
    ensures
        component_start(s) <= s.len(),
    decreases s.len(),
{
    if s.len() > 0 && s.last() != '/' {
        lemma_component_start_bound(s.drop_last());
    }
}

/// Decides whether `rm` refuses a path, from its text.
fn refuses_path(path: &str) -> (r: bool)
    ensures
        r == rm_refuses(path@),
{
    let v = chars_of(path);
    let mut e = v.len();
    assert(v@.take(e as int) =~= v@);
    while e > 0 && v[e - 1] == '/'
        invariant
            e <= v.len(),
            v@ == path@,
            trim_end_slashes(v@) == trim_end_slashes(v@.take(e as int)),
        decreases e,
    {
        assert(v@.take(e as int).drop_last() =~= v@.take(e - 1));
        e = e - 1;
    }
    let ghost t = v@.take(e as int);
    assert(trim_end_slashes(t) == t);
    let mut s = e;
    assert(t.take(s as int) =~= t);
    while s > 0 && v[s - 1] != '/'
        invariant
            s <= e <= v.len(),
            t == v@.take(e as int),
            component_start(t) == component_start(t.take(s as int)),
        decreases s,
    {
        assert(t.take(s as int).drop_last() =~= t.take(s - 1));
        s = s - 1;
    }
    proof {
        lemma_component_start_bound(t.take(s as int));
        assert(component_start(t.take(s as int)) == s);
    }
    let n = e - s;
    let ghost c = t.skip(s as int);
    assert(c.len() == n);
    assert(forall|i: int| 0 <= i < n ==> c[i] == v@[s + i]);
    let is_dot = n == 1 && v[s] == '.';
    let is_dotdot = n == 2 && v[s] == '.' && v[s + 1] == '.';
    proof {
        if is_dot {
            assert(c =~= seq!['.']);
        }
        if is_dotdot {
            assert(c =~= seq!['.', '.']);
        }
        if c == seq!['.'] {
            assert(c[0] == '.');
        }
        if c == seq!['.', '.'] {
            assert(c[0] == '.' && c[1] == '.');
        }
    }
    is_dot || is_dotdot
}

/// Law of `rm` and `.`: `rm` refuses `.` and `..`, and any path whose last
/// component is one of them, whatever comes before it and however many `/`s
/// follow it.
pub proof fn lemma_rm_refuses_dot_entries(dir: Seq<char>, slashes: nat)
    ensures
        rm_refuses(seq!['.'] + Seq::new(slashes, |i: int| '/')),
        rm_refuses(seq!['.', '.'] + Seq::new(slashes, |i: int| '/')),
        rm_refuses(dir + seq!['/', '.'] + Seq::new(slashes, |i: int| '/')),
        rm_refuses(dir + seq!['/', '.', '.'] + Seq::new(slashes, |i: int| '/')),
{
    lemma_trim_slashes(seq!['.'], slashes);
    lemma_trim_slashes(seq!['.', '.'], slashes);
    lemma_trim_slashes(dir + seq!['/', '.'], slashes);
    lemma_trim_slashes(dir + seq!['/', '.', '.'], slashes);
    let a = dir + seq!['/', '.'];
    assert(a.drop_last() =~= dir + seq!['/']);
    assert(a.last() == '.');
    assert((dir + seq!['/']).last() == '/');
    assert(component_start(dir + seq!['/']) == a.len() - 1);
    assert(component_start(a) == a.len() - 1);
    assert(a.skip(a.len() - 1) =~= seq!['.']);
    let b = dir + seq!['/', '.', '.'];
    assert(b.drop_last() =~= dir + seq!['/', '.']);
    assert(b.drop_last().drop_last() =~= dir + seq!['/']);
    assert(b.last() == '.' && b.drop_last().last() == '.');
    assert((dir + seq!['/']).last() == '/');
    assert(component_start(dir + seq!['/']) == b.len() - 2);
    assert(component_start(b.drop_last()) == b.len() - 2);
    assert(component_start(b) == b.len() - 2);
    assert(b.skip(b.len() - 2) =~= seq!['.', '.']);
    assert(component_start(seq!['.']) == 0) by {
        assert(seq!['.'].drop_last() =~= Seq::<char>::empty());
        assert(seq!['.'].last() == '.');
        assert(component_start(Seq::<char>::empty()) == 0);
    }
    assert(seq!['.'].skip(0) =~= seq!['.']);
    assert(component_start(seq!['.', '.']) == 0) by {
        assert(seq!['.', '.'].drop_last() =~= seq!['.']);
        assert(seq!['.'].drop_last() =~= Seq::<char>::empty());
        assert(seq!['.'].last() == '.');
        assert(seq!['.', '.'].last() == '.');
        assert(component_start(Seq::<char>::empty()) == 0);
    }
    assert(seq!['.', '.'].skip(0) =~= seq!['.', '.']);
}

/// Trailing `/`s are dropped down to a path that does not end with one.
proof fn lemma_trim_slashes(p: Seq<char>, slashes: nat)
    requires
        p.len() > 0,
        p.last() != '/',
    ensures
        trim_end_slashes(p + Seq::new(slashes, |i: int| '/')) == p,
    decreases slashes,
{
    let s = p + Seq::new(slashes, |i: int| '/');
    if slashes == 0 {
        assert(s =~= p);
    } else {
        assert(s.drop_last() =~= p + Seq::new((slashes - 1) as nat, |i: int| '/'));
        assert(s.last() == '/');
        lemma_trim_slashes(p, (slashes - 1) as nat);
    }
}

/// The first invalid option letter of one argument, after its `-`.
fn bad_letter(a: &Vec<char>) -> (r: Option<char>)
    requires
        a.len() > 0,
    ensures
        r == first_bad_letter(a@, 1),
{
    let mut i: usize = 1;
    while i < a.len()
        invariant
            1 <= i <= a.len(),
            first_bad_letter(a@, 1) == first_bad_letter(a@, i as nat),
        decreases a.len() - i,
    {
        if !(a[i] == 'r' || a[i] == 'R' || a[i] == 'f') {
            return Some(a[i]);
        }
        i = i + 1;
    }
    None
}

/// Plans `rm [-r] PATH...`: reads the options (`-r`, `-R`, `-f`, their
/// combinations and `--recursive`), failing on the first invalid letter,
/// then lists the paths, marking those whose last component as typed is
/// `.` or `..` (trailing `/`s ignored), which `rm` refuses.
pub fn plan_rm(args: &Vec<String>) -> (r: Result<RmPlan, RmError>)
    ensures
        match r {
            Ok(p) => rm_options(views(args@)) == Ok::<bool, char>(p.recursive) && rm_paths(views(args@)).len() > 0
                && p.targets@.len() == rm_paths(views(args@)).len() && forall|k: int|
                0 <= k < p.targets@.len() ==> (#[trigger] p.targets@[k]).0@ == rm_paths(views(args@))[k]
                    && p.targets@[k].1 == rm_refuses(rm_paths(views(args@))[k]),
            Err(RmError::InvalidOption(c)) => rm_options(views(args@)) == Err::<bool, char>(c),
            Err(RmError::MissingOperand) => rm_options(views(args@)) is Ok && rm_paths(views(args@)).len() == 0,
        },
{
    let ghost a = views(args@);
    let mut recursive = false;
    let mut paths: Vec<String> = Vec::new();
    let mut i: usize = 0;
    proof { reveal_strlit("--recursive"); }
    let long = String::from_str("--recursive");
    assert(a.take(0) =~= Seq::<Seq<char>>::empty());
    assert(views(paths@) =~= Seq::<Seq<char>>::empty());
    while i < args.len()
        invariant
            i <= args.len(),
            a == views(args@),
            long@ == "--recursive"@,
            rm_options(a.take(i as int)) == Ok::<bool, char>(recursive),
            views(paths@) == rm_paths(a.take(i as int)),
        decreases args.len() - i,
    {
        let ghost t = a.take(i + 1);
        assert(t.drop_last() =~= a.take(i as int));
        assert(t.last() == args@[i as int]@);
        let v = chars_of(args[i].as_str());
        let is_short = (v.len() == 2 && v[0] == '-' && (v[1] == 'r' || v[1] == 'R')) || (v.len() == 3
            && v[0] == '-' && ((v[1] == 'r' && v[2] == 'f') || (v[1] == 'f' && v[2] == 'r')));
        proof {
            if v.len() == 2 && v[0] == '-' && v[1] == 'r' {
                assert(v@ =~= seq!['-', 'r']);
            }
            if v.len() == 2 && v[0] == '-' && v[1] == 'R' {
                assert(v@ =~= seq!['-', 'R']);
            }
            if v.len() == 3 && v[0] == '-' && v[1] == 'r' && v[2] == 'f' {
                assert(v@ =~= seq!['-', 'r', 'f']);
            }
            if v.len() == 3 && v[0] == '-' && v[1] == 'f' && v[2] == 'r' {
                assert(v@ =~= seq!['-', 'f', 'r']);
            }
            if !is_short {
                assert(v@ != seq!['-', 'r'] && v@ != seq!['-', 'R']) by {
                    if v@ == seq!['-', 'r'] || v@ == seq!['-', 'R'] {
                        assert(v@.len() == 2 && v@[0] == '-');
                    }
                }
                assert(v@ != seq!['-', 'r', 'f'] && v@ != seq!['-', 'f', 'r']) by {
                    if v@ == seq!['-', 'r', 'f'] || v@ == seq!['-', 'f', 'r'] {
                        assert(v@.len() == 3 && v@[0] == '-' && v@[1] == seq!['-', 'r', 'f'][1]);
                    }
                }
            }
        }
        if is_short || args[i] == long {
            assert(v@.len() > 0 && v@[0] == '-') by {
                if !is_short {
                    reveal_strlit("--recursive");
                    assert(v@ == "--recursive"@);
                    assert("--recursive"@[0] == '-');
                }
            }
            recursive = true;
        } else if v.len() > 0 && v[0] == '-' {
            match bad_letter(&v) {
                Some(c) => {
                    proof { lemma_rm_error_stays(a, (i + 1) as nat, c); }
                    assert(a.take(args.len() as int) =~= a);
                    return Err(RmError::InvalidOption(c));
                },
                None => {
                    if v.len() > 1 {
                        recursive = true;
                    }
                },
            }
        } else {
            let x = args[i].clone();
            proof { lemma_views_push(paths@, x); }
            paths.push(x);
        }
        i = i + 1;
    }
    assert(a.take(args.len() as int) =~= a);
    if paths.len() == 0 {
        return Err(RmError::MissingOperand);
    }
    let mut targets: Vec<(String, bool)> = Vec::new();
    let mut k: usize = 0;
    proof {
        reveal_strlit(".");
        reveal_strlit("..");
    }
    let dot = String::from_str(".");
    let dotdot = String::from_str("..");
    assert(dot@ =~= seq!['.']);
    assert(dotdot@ =~= seq!['.', '.']);
    while k < paths.len()
        invariant
            k <= paths.len(),
            dot@ == seq!['.'],
            dotdot@ == seq!['.', '.'],
            targets@.len() == k,
            forall|j: int|
                0 <= j < k ==> (#[trigger] targets@[j]).0@ == views(paths@)[j] && targets@[j].1
                    == rm_refuses(views(paths@)[j]),
        decreases paths.len() - k,
    {
        let refused = refuses_path(paths[k].as_str());
        targets.push((paths[k].clone(), refused));
        k = k + 1;
    }
    Ok(RmPlan { recursive, targets })
}

/// What `rm` finds at a path, from its own metadata (links not followed).
#[derive(Debug, Clone, Copy, PartialEq, Eq, Structural)]
pub enum RmTargetKind {
    Symlink,
    Directory,
    /// Any other file.
    File,
}

/// What `rm` does with one path.
#[derive(Debug, Clone, Copy, PartialEq, Eq, Structural)]
pub enum RmAction {
    /// Skip it with a warning: its last component is `.` or `..`.
    Refuse,
    /// Report the error of reading its metadata.
    ReportError,
    /// Remove the link itself.
    RemoveLink,
    /// Refuse a directory without `-r` (`Is a directory`).
    RefuseDirectory,
    /// Remove the directory with its contents.
    RemoveTree,
    /// Remove the file.
    RemoveFile,
}

/// Decides what `rm` does with one of its paths: refused paths are skipped;
/// a path whose metadata cannot be read is an error; a link is removed
/// itself; a directory is removed with its contents under `-r` and refused
/// otherwise; any other file is removed. Every action but the removals
/// counts as a failure of `rm`, and so does a removal that fails.
pub fn rm_action(refused: bool, kind: Option<RmTargetKind>, recursive: bool) -> (r: RmAction)
    ensures
        r == (if refused {
            RmAction::Refuse
        } else {
            match kind {
                None => RmAction::ReportError,
                Some(RmTargetKind::Symlink) => RmAction::RemoveLink,
                Some(RmTargetKind::Directory) => if recursive {
                    RmAction::RemoveTree
                } else {
                    RmAction::RefuseDirectory
                },
                Some(RmTargetKind::File) => RmAction::RemoveFile,
            }
        }),
{
    if refused {
        return RmAction::Refuse;
    }
    match kind {
        None => RmAction::ReportError,
        Some(RmTargetKind::Symlink) => RmAction::RemoveLink,
        Some(RmTargetKind::Directory) => if recursive {
            RmAction::RemoveTree
        } else {
            RmAction::RefuseDirectory
        },
        Some(RmTargetKind::File) => RmAction::RemoveFile,
    }
}

/// Once an invalid option letter was met, the rest of the arguments changes
/// nothing.
proof fn lemma_rm_error_stays(args: Seq<Seq<char>>, k: nat, c: char)
    requires
        k <= args.len(),
        rm_options(args.take(k as int)) == Err::<bool, char>(c),
    ensures
        rm_options(args) == Err::<bool, char>(c),
    decreases args.len() - k,
{
    if k < args.len() {
        assert(args.take(k + 1 as int).drop_last() =~= args.take(k as int));
        lemma_rm_error_stays(args, k + 1, c);
    } else {
        assert(args.take(k as int) =~= args);
    }
}


// ───────────────────────────── mkdir ─────────────────────────────

/// What `mkdir` does next.
#[derive(Debug, Clone, Copy, PartialEq, Eq, Structural)]
pub enum MkdirAction {
    /// No directory named: `mkdir: missing operand`, a failure.
    MissingOperand,
    /// Create the directory with this index.
    Create(usize),
    /// Stop, having succeeded or not.
    Done(bool),
}

/// The next step of `mkdir` over `count` directory names: with none it
/// reports a missing operand; otherwise it creates them in order (`next` is
/// the next one), stops with a failure at the first that could not be
/// created (`last_ok` false), and succeeds after the last.
pub fn mkdir_step(count: usize, next: usize, last_ok: bool) -> (r: MkdirAction)
    ensures
        r == (if count == 0 {
            MkdirAction::MissingOperand
        } else if !last_ok {
            MkdirAction::Done(false)
        } else if next >= count {
            MkdirAction::Done(true)
        } else {
            MkdirAction::Create(next)
        }),
{
    if count == 0 {
        MkdirAction::MissingOperand
    } else if !last_ok {
        MkdirAction::Done(false)
    } else if next >= count {
        MkdirAction::Done(true)
    } else {
        MkdirAction::Create(next)
    }
}

/// The name that an error of `mkdir` shows for directory `i`: its sanitised
/// form where there is one, else the name as typed.
pub fn mkdir_display(raw: &Vec<String>, sanitised: &Vec<String>, i: usize) -> (r: String)
    requires
        i < raw.len(),
    ensures
        r@ == (if i < sanitised.len() {
            sanitised@[i as int]@
        } else {
            raw@[i as int]@
        }),
{
    if i < sanitised.len() {
        sanitised[i].clone()
    } else {
        raw[i].clone()
    }
}

// ───────────────────────────── cat with files ─────────────────────────────

/// Where `cat` stands in printing its files: the next file, and whether
/// every file so far could be printed.
#[derive(Debug, Clone, Copy, PartialEq, Eq, Structural)]
pub struct FileRun {
    pub next: usize,
    pub all_ok: bool,
}

impl FileRun {
    /// Before the first file.
    pub fn new() -> (s: FileRun)
        ensures
            s.next == 0,
            s.all_ok,
    {
        FileRun { next: 0, all_ok: true }
    }

    /// The next of `count` files to print, if any: each file is printed in
    /// turn, whether or not the ones before could be.
    pub fn next_file(&mut self, count: usize) -> (r: Option<usize>)
        requires
            old(self).next <= count,
        ensures
            r == (if old(self).next < count {
                Some(old(self).next)
            } else {
                None::<usize>
            }),
            final(self).next == (if old(self).next < count {
                old(self).next + 1
            } else {
                old(self).next as int
            }),
            final(self).all_ok == old(self).all_ok,
    {
        if self.next < count {
            let i = self.next;
            self.next = i + 1;
            Some(i)
        } else {
            None
        }
    }

    /// Records whether a file could be printed; `cat` succeeds only if
    /// every file could.
    pub fn record(&mut self, ok: bool)
        ensures
            final(self).next == old(self).next,
            final(self).all_ok == (old(self).all_ok && ok),
    {
        self.all_ok = self.all_ok && ok;
    }
}

// ───────────────────────────── cat without files ─────────────────────────────

/// A key press while `cat` echoes standard input.
#[derive(Debug, Clone, Copy, PartialEq, Eq, Structural)]
pub enum CatKey {
    /// A character key, with whether Control was held.
    Char(char, bool),
    Backspace,
    Enter,
    Other,
}

/// What `cat` does for a key.
#[derive(Debug, PartialEq)]
pub enum CatAction {
    /// Echo the character.
    Echo(char),
    /// Erase the last character on screen (`\x08 \x08`).
    Erase,
    /// Print the finished line on a line of its own.
    Line(String),
    /// End of input (Control-D): print a line break and stop.
    Eof,
    /// Interrupted (Control-C): print `^C` and stop.
    Interrupt,
    /// Nothing to do.
    Nothing,
}

/// Handles one key of `cat` reading from the keyboard: Control-D ends the
/// input, Control-C interrupts, other characters are echoed and buffered,
/// Backspace removes the last buffered character, Enter prints the buffered
/// line and starts a new one.
pub fn cat_step(buffer: &mut String, key: CatKey) -> (r: CatAction)
    ensures
        match key {
            CatKey::Char(c, ctrl) => if ctrl && c == 'd' {
                r is Eof && final(buffer)@ == old(buffer)@
            } else if ctrl && c == 'c' {
                r is Interrupt && final(buffer)@ == old(buffer)@
            } else {
                r == CatAction::Echo(c) && final(buffer)@ == old(buffer)@.push(c)
            },
            CatKey::Backspace => if old(buffer)@.len() > 0 {
                r is Erase && final(buffer)@ == old(buffer)@.drop_last()
            } else {
                r is Nothing && final(buffer)@ == old(buffer)@
            },
            CatKey::Enter => (r matches CatAction::Line(l) && l@ == old(buffer)@) && final(buffer)@
                == Seq::<char>::empty(),
            CatKey::Other => r is Nothing && final(buffer)@ == old(buffer)@,
        },
{
    match key {
        CatKey::Char(c, ctrl) => {
            if ctrl && c == 'd' {
                CatAction::Eof
            } else if ctrl && c == 'c' {
                CatAction::Interrupt
            } else {
                crate::text::push_char(buffer, c);
                CatAction::Echo(c)
            }
        },
        CatKey::Backspace => {
            let mut v = chars_of(buffer.as_str());
            if v.len() > 0 {
                v.pop();
                *buffer = crate::text::string_from(&v);
                assert(v@ =~= old(buffer)@.drop_last());
                CatAction::Erase
            } else {
                CatAction::Nothing
            }
        },
        CatKey::Enter => {
            let line = buffer.clone();
            *buffer = String::new();
            CatAction::Line(line)
        },
        CatKey::Other => CatAction::Nothing,
    }
}

} // verus!
