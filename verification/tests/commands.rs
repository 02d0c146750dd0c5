use mac_shell::commands::{mkdir_display, mkdir_step, FileRun, MkdirAction};
use mac_shell::commands::{rm_action, RmAction, RmTargetKind};
use mac_shell::commands::join_path;
use mac_shell::commands::{copy_target, move_target};
use mac_shell::commands::{
    cat_step, cd_display, cd_failure, echo, plan_cd, plan_cp, plan_mv, plan_rm, CatAction, CatKey,
    CdError, CdFailure, CpError, CpStep, IoErrorKind, MvError, MvPlan, RmError,
};
use mac_shell::pwd_state::PwdState;

fn s(v: &[&str]) -> Vec<String> {
    v.iter().map(|x| x.to_string()).collect()
}

#[test]
fn echo_joins_with_spaces() {
    assert_eq!(echo(&s(&["a", "b c"])), "a b c");
    assert_eq!(echo(&s(&[])), "");
    assert_eq!(echo(&s(&["", "x"])), " x");
}

fn state(cur: &str, old: &str) -> PwdState {
    PwdState::new(cur.to_string(), old.to_string())
}

#[test]
fn cd_home_and_tilde() {
    let st = state("/a", "/b");
    let p = plan_cd(&s(&[]), Some("/home/u".into()), &st).unwrap();
    assert_eq!((p.target.as_str(), p.print_new_dir), ("/home/u", false));
    let p = plan_cd(&s(&["~"]), Some("/home/u".into()), &st).unwrap();
    assert_eq!((p.target.as_str(), p.print_new_dir), ("/home/u", false));
    assert_eq!(plan_cd(&s(&[]), None, &st).unwrap_err(), CdError::HomeNotSet);
    assert_eq!(plan_cd(&s(&["~"]), None, &st).unwrap_err(), CdError::HomeNotSet);
}

#[test]
fn cd_dash_and_paths() {
    let st = state("/a", "/b");
    let p = plan_cd(&s(&["-"]), None, &st).unwrap();
    assert_eq!((p.target.as_str(), p.print_new_dir), ("/b", true));
    let p = plan_cd(&s(&["x\\ny"]), None, &st).unwrap();
    assert_eq!((p.target.as_str(), p.print_new_dir), ("x\ny", false));
    let p = plan_cd(&s(&["~/src"]), Some("/h".into()), &st).unwrap();
    assert_eq!(p.target, "~/src");
    assert_eq!(plan_cd(&s(&["a", "b"]), Some("/h".into()), &st).unwrap_err(), CdError::TooManyArguments);
}

#[test]
fn cd_dash_goes_back() {
    let mut st = state("/start", "/start");
    st.after_cd("/elsewhere".to_string());
    assert_eq!((st.get_current_dir(), st.get_old_dir()), ("/elsewhere".to_string(), "/start".to_string()));
    let p = plan_cd(&s(&["-"]), None, &st).unwrap();
    assert_eq!(p.target, "/start");
    assert!(p.print_new_dir);
    st.after_cd(p.target);
    let p = plan_cd(&s(&["-"]), None, &st).unwrap();
    assert_eq!(p.target, "/elsewhere");
}

#[test]
fn cd_failures() {
    assert_eq!(cd_failure(IoErrorKind::NotFound, None), CdFailure::NoSuchFile);
    assert_eq!(cd_failure(IoErrorKind::NotFound, Some(20)), CdFailure::NoSuchFile);
    assert_eq!(cd_failure(IoErrorKind::PermissionDenied, Some(13)), CdFailure::PermissionDenied);
    assert_eq!(cd_failure(IoErrorKind::Other, Some(libc::ENOTDIR)), CdFailure::NotADirectory);
    assert_eq!(cd_failure(IoErrorKind::Other, Some(5)), CdFailure::Other);
    assert_eq!(cd_failure(IoErrorKind::Other, None), CdFailure::Other);
}

#[test]
fn cd_error_path() {
    assert_eq!(cd_display(&s(&["raw\n"]), &s(&["raw\\n"])), "raw\n");
    assert_eq!(cd_display(&s(&[]), &s(&["a\\nb"])), "a\nb");
    assert_eq!(cd_display(&s(&[]), &s(&[])), "");
}

#[test]
fn cp_argument_errors() {
    assert_eq!(plan_cp(&s(&[]), false), Err(CpError::MissingFileOperand));
    assert_eq!(plan_cp(&s(&["a"]), true), Err(CpError::MissingDestination));
    assert_eq!(plan_cp(&s(&["a", "b", "d"]), false), Err(CpError::TargetNotADirectory));
}

#[test]
fn cp_steps() {
    assert_eq!(plan_cp(&s(&["a", "b"]), false), Ok(vec![CpStep::Copy(0)]));
    assert_eq!(plan_cp(&s(&["a", "b"]), true), Ok(vec![CpStep::Copy(0)]));
    assert_eq!(
        plan_cp(&s(&["x/a", "y/a", "b", "d"]), true),
        Ok(vec![CpStep::Copy(0), CpStep::Duplicate(1), CpStep::Copy(2)])
    );
    // Sources without a file name are never duplicates.
    assert_eq!(plan_cp(&s(&["..", "x/..", "d"]), true), Ok(vec![CpStep::Copy(0), CpStep::Copy(1)]));
    assert_eq!(
        plan_cp(&s(&["a/", "b/a", "a", "d"]), true),
        Ok(vec![CpStep::Copy(0), CpStep::Duplicate(1), CpStep::Duplicate(2)])
    );
}

#[test]
fn mv_plans() {
    assert_eq!(plan_mv(&s(&["a"]), true), Err(MvError::MissingOperand));
    assert_eq!(plan_mv(&s(&[]), false), Err(MvError::MissingOperand));
    assert_eq!(plan_mv(&s(&["a", "b"]), false), Ok(MvPlan::Single));
    assert_eq!(plan_mv(&s(&["a", "b", "c"]), false), Err(MvError::TargetNotADirectory));
    assert_eq!(
        plan_mv(&s(&["x/a", "..", "b", "d"]), true),
        Ok(MvPlan::Into(vec![(0, "a".to_string()), (2, "b".to_string())]))
    );
}

fn targets(args: &[&str]) -> (bool, Vec<(String, bool)>) {
    let p = plan_rm(&s(args)).unwrap();
    (p.recursive, p.targets)
}

#[test]
fn rm_options_and_targets() {
    assert_eq!(targets(&["-r", "d"]), (true, vec![("d".into(), false)]));
    assert_eq!(targets(&["d", "-R"]), (true, vec![("d".into(), false)]));
    assert_eq!(targets(&["--recursive", "a"]), (true, vec![("a".into(), false)]));
    assert_eq!(targets(&["-f", "a"]), (true, vec![("a".into(), false)]));
    assert_eq!(targets(&["-rf", "a"]), (true, vec![("a".into(), false)]));
    assert_eq!(targets(&["-", "a"]), (false, vec![("a".into(), false)]));
    assert_eq!(targets(&["a", "b"]), (false, vec![("a".into(), false), ("b".into(), false)]));
}

#[test]
fn rm_refuses_dot_entries() {
    assert_eq!(targets(&["a", "."]), (false, vec![("a".into(), false), (".".into(), true)]));
    assert_eq!(targets(&["x/.."]), (false, vec![("x/..".into(), true)]));
    assert_eq!(targets(&["x/./"]), (false, vec![("x/./".into(), true)]));
    assert_eq!(targets(&["-r", "..//", "/."]), (true, vec![("..//".into(), true), ("/.".into(), true)]));
    for p in ["x/.y", "...", "a.", ".hidden", "x/..z", "/", "//", "a/b"] {
        assert_eq!(targets(&[p]), (false, vec![(p.to_string(), false)]), "{:?}", p);
    }
    let plan = plan_rm(&s(&["-r", "."])).unwrap();
    assert!(plan.targets[0].1);
    assert_eq!(rm_action(plan.targets[0].1, Some(RmTargetKind::Directory), plan.recursive), RmAction::Refuse);
}

#[test]
fn rm_errors() {
    assert_eq!(plan_rm(&s(&["-z", "a"])).unwrap_err(), RmError::InvalidOption('z'));
    assert_eq!(plan_rm(&s(&["a", "-rx"])).unwrap_err(), RmError::InvalidOption('x'));
    assert_eq!(plan_rm(&s(&["--r"])).unwrap_err(), RmError::InvalidOption('-'));
    assert_eq!(plan_rm(&s(&["-f"])).unwrap_err(), RmError::MissingOperand);
    assert_eq!(plan_rm(&s(&[])).unwrap_err(), RmError::MissingOperand);
}

#[test]
fn cat_keys() {
    let mut b = String::from("ab");
    assert_eq!(cat_step(&mut b, CatKey::Backspace), CatAction::Erase);
    assert_eq!(b, "a");
    assert_eq!(cat_step(&mut b, CatKey::Char('x', false)), CatAction::Echo('x'));
    assert_eq!(b, "ax");
    assert_eq!(cat_step(&mut b, CatKey::Enter), CatAction::Line("ax".into()));
    assert_eq!(b, "");
    assert_eq!(cat_step(&mut b, CatKey::Backspace), CatAction::Nothing);
    assert_eq!(cat_step(&mut b, CatKey::Other), CatAction::Nothing);
    assert_eq!(cat_step(&mut b, CatKey::Char('d', true)), CatAction::Eof);
    assert_eq!(cat_step(&mut b, CatKey::Char('c', true)), CatAction::Interrupt);
    assert_eq!(cat_step(&mut b, CatKey::Char('q', true)), CatAction::Echo('q'));
    assert_eq!(b, "q");
}

#[test]
fn joining_paths() {
    assert_eq!(join_path("d", "a"), "d/a");
    assert_eq!(join_path("d/", "a"), "d/a");
    assert_eq!(join_path("", "a"), "a");
    assert_eq!(join_path("d", "/abs"), "/abs");
    assert_eq!(join_path("d", ""), "d/");
    for (dir, name) in [("x", "y"), ("x//", "y"), ("/", "y"), ("a/b", "c d"), ("", "")] {
        let expected = std::path::Path::new(dir).join(name).to_string_lossy().to_string();
        assert_eq!(join_path(dir, name), expected, "{:?} + {:?}", dir, name);
    }
}

#[test]
fn copy_and_move_targets() {
    assert_eq!(copy_target("x/a.txt", "d", true), Some("d/a.txt".to_string()));
    assert_eq!(copy_target("x/a.txt", "b.txt", false), Some("b.txt".to_string()));
    assert_eq!(copy_target("..", "d", true), None);
    assert_eq!(move_target("x/a", "d/", true), "d/a");
    assert_eq!(move_target("..", "d", true), "d");
    assert_eq!(move_target("x/a", "b", false), "b");
}

#[test]
fn cd_goes_where_typed() {
    plan_typed_cd("cd 'dir\nwith newline'", "dir\nwith newline");
    plan_typed_cd("cd plain/path", "plain/path");
}

fn plan_typed_cd(line: &str, expected: &str) {
    let r = mac_shell::parser::parse_input(line);
    let cmds = match r {
        mac_shell::parser::ParseResult::Commands(c) => c,
        _ => panic!("incomplete"),
    };
    match &cmds[0].0 {
        mac_shell::parser::CommandEnum::Cd(sanitised, _) => {
            let st = state("/a", "/b");
            let p = plan_cd(sanitised, None, &st).unwrap();
            assert_eq!(p.target, expected);
            assert!(!p.print_new_dir);
        }
        other => panic!("{:?}", other),
    }
}

#[test]
fn cp_never_copies_two_sources_to_one_name() {
    let args = s(&["a/x", "b/y", "c/x", "y", "z", "d/z/", "w", "dest"]);
    let steps = plan_cp(&args, true).unwrap();
    assert_eq!(steps.len(), args.len() - 1);
    let mut names = Vec::new();
    for (k, step) in steps.iter().enumerate() {
        match step {
            CpStep::Copy(i) => {
                assert_eq!(*i, k);
                let n = std::path::Path::new(&args[*i]).file_name().unwrap().to_owned();
                assert!(!names.contains(&n));
                names.push(n);
            }
            CpStep::Duplicate(i) => assert_eq!(*i, k),
        }
    }
    assert_eq!(names.len(), 4);
}

#[test]
fn cat_echoes_typed_line() {
    let mut b = String::new();
    for c in "héllo".chars() {
        assert_eq!(cat_step(&mut b, CatKey::Char(c, false)), CatAction::Echo(c));
    }
    assert_eq!(cat_step(&mut b, CatKey::Backspace), CatAction::Erase);
    assert_eq!(cat_step(&mut b, CatKey::Enter), CatAction::Line("héll".into()));
    assert_eq!(cat_step(&mut b, CatKey::Enter), CatAction::Line(String::new()));
}

#[test]
fn rm_actions() {
    assert_eq!(rm_action(true, Some(RmTargetKind::File), true), RmAction::Refuse);
    assert_eq!(rm_action(false, None, true), RmAction::ReportError);
    assert_eq!(rm_action(false, Some(RmTargetKind::Symlink), false), RmAction::RemoveLink);
    assert_eq!(rm_action(false, Some(RmTargetKind::Directory), false), RmAction::RefuseDirectory);
    assert_eq!(rm_action(false, Some(RmTargetKind::Directory), true), RmAction::RemoveTree);
    assert_eq!(rm_action(false, Some(RmTargetKind::File), false), RmAction::RemoveFile);
}

#[test]
fn mkdir_steps() {
    assert_eq!(mkdir_step(0, 0, true), MkdirAction::MissingOperand);
    assert_eq!(mkdir_step(2, 0, true), MkdirAction::Create(0));
    assert_eq!(mkdir_step(2, 1, true), MkdirAction::Create(1));
    assert_eq!(mkdir_step(2, 1, false), MkdirAction::Done(false));
    assert_eq!(mkdir_step(2, 2, true), MkdirAction::Done(true));
    let raw = s(&["a\nb", "c"]);
    assert_eq!(mkdir_display(&raw, &s(&["a\\nb"]), 0), "a\\nb");
    assert_eq!(mkdir_display(&raw, &s(&["a\\nb"]), 1), "c");
}

#[test]
fn cat_prints_every_file() {
    let outcomes = [true, false, true];
    let mut run = FileRun::new();
    let mut printed = Vec::new();
    while let Some(i) = run.next_file(outcomes.len()) {
        printed.push(i);
        run.record(outcomes[i]);
    }
    assert_eq!(printed, vec![0, 1, 2]);
    assert!(!run.all_ok);
    let mut run = FileRun::new();
    while let Some(_) = run.next_file(2) {
        run.record(true);
    }
    assert!(run.all_ok);
}

#[test]
fn file_names_follow_std() {
    for p in ["a", "a/b", "a/b/", "a//b", "/", "", ".", "..", "./", "a/.", "a/./", "a/..", "/..", "...", "./x", "x/.y", "//", "a/b/.."] {
        let expected = match std::path::Path::new(p).file_name() {
            Some(n) => std::path::Path::new("d").join(n).to_string_lossy().to_string(),
            None => "d".to_string(),
        };
        assert_eq!(mac_shell::commands::move_target(p, "d", true), expected, "{:?}", p);
    }
    assert!(plan_rm(&s(&["-r", ".", ".."])).unwrap().targets.iter().all(|(_, refused)| *refused));
}
