use mac_shell::parser::{execute_all, parse_input, parse_tokens, ChainState, CommandEnum, ParseResult};

fn s(v: &[&str]) -> Vec<String> {
    v.iter().map(|x| x.to_string()).collect()
}

#[test]
fn tokens_plain_words() {
    assert_eq!(parse_tokens("ls -l /tmp"), Ok(vec![(s(&["ls", "-l", "/tmp"]), false)]));
}

#[test]
fn tokens_quotes_group_words() {
    assert_eq!(
        parse_tokens("echo 'a b' \"c d\" e\\ f"),
        Ok(vec![(s(&["echo", "a b", "c d", "e f"]), false)])
    );
}

#[test]
fn tokens_separators() {
    assert_eq!(
        parse_tokens("a; b && c & d"),
        Ok(vec![
            (s(&["a"]), false),
            (s(&["b"]), false),
            (s(&["c"]), true),
            (s(&["d"]), false),
        ])
    );
}

#[test]
fn tokens_separators_without_spaces() {
    assert_eq!(
        parse_tokens("a&&b;c&d"),
        Ok(vec![(s(&["a"]), false), (s(&["b"]), true), (s(&["c"]), false), (s(&["d"]), false)])
    );
}

#[test]
fn tokens_triple_ampersand() {
    assert_eq!(parse_tokens("a &&& b"), Ok(vec![(s(&["a"]), false), (s(&["b"]), false)]));
}

#[test]
fn tokens_escapes() {
    // Outside quotes a backslash takes the next character literally.
    assert_eq!(parse_tokens("echo \\\"x \\;"), Ok(vec![(s(&["echo", "\"x", ";"]), false)]));
    // In double quotes only `"` and `\` are escaped; other escapes keep the backslash.
    assert_eq!(parse_tokens("\"a\\\"b\\\\c\\nd\""), Ok(vec![(s(&["a\"b\\c\\nd"]), false)]));
    // In single quotes a backslash is an ordinary character.
    assert_eq!(parse_tokens("'a\\b'"), Ok(vec![(s(&["a\\b"]), false)]));
}

#[test]
fn tokens_separators_in_quotes_are_literal() {
    assert_eq!(parse_tokens("echo 'a;b' \"c&&d\""), Ok(vec![(s(&["echo", "a;b", "c&&d"]), false)]));
}

#[test]
fn tokens_incomplete() {
    assert_eq!(parse_tokens("echo 'abc"), Err("Incomplete".to_string()));
    assert_eq!(parse_tokens("echo \"abc"), Err("Incomplete".to_string()));
    assert_eq!(parse_tokens("echo abc\\"), Err("Incomplete".to_string()));
}

#[test]
fn tokens_empty_and_blank() {
    assert_eq!(parse_tokens(""), Ok(vec![]));
    assert_eq!(parse_tokens("  ;  ; "), Ok(vec![]));
    assert_eq!(parse_tokens("''"), Ok(vec![]));
}

#[test]
fn tokens_unicode_whitespace_separates() {
    assert_eq!(parse_tokens("a\u{3000}b\u{a0}c"), Ok(vec![(s(&["a", "b", "c"]), false)]));
}

#[test]
fn parse_builtins() {
    let r = parse_input("  ls -a  ");
    assert_eq!(r, ParseResult::Commands(vec![(CommandEnum::Ls(s(&["-a"])), false)]));
    let r = parse_input("pwd && exit");
    assert_eq!(
        r,
        ParseResult::Commands(vec![(CommandEnum::Pwd, false), (CommandEnum::Exit, true)])
    );
    let r = parse_input("cat a b; cp x y; mv p q; rm -r z");
    assert_eq!(
        r,
        ParseResult::Commands(vec![
            (CommandEnum::Cat(s(&["a", "b"])), false),
            (CommandEnum::Cp(s(&["x", "y"])), false),
            (CommandEnum::Mv(s(&["p", "q"])), false),
            (CommandEnum::Rm(s(&["-r", "z"])), false),
        ])
    );
}

#[test]
fn parse_sanitises_and_keeps_raw() {
    let r = parse_input("cd 'a\nb'");
    assert_eq!(
        r,
        ParseResult::Commands(vec![(CommandEnum::Cd(s(&["a\\nb"]), s(&["a\nb"])), false)])
    );
    let r = parse_input("mkdir 'x\ny'");
    assert_eq!(
        r,
        ParseResult::Commands(vec![(CommandEnum::Mkdir(s(&["x\ny"]), s(&["x\\ny"])), false)])
    );
    let r = parse_input("echo 'a\nb'");
    assert_eq!(r, ParseResult::Commands(vec![(CommandEnum::Echo(s(&["a\nb"])), false)]));
}

#[test]
fn parse_unknown_command() {
    let r = parse_input("git status -s");
    assert_eq!(
        r,
        ParseResult::Commands(vec![(
            CommandEnum::Unknown("git".to_string(), s(&["status", "-s"])),
            false
        )])
    );
}

#[test]
fn parse_clear_is_a_command() {
    let r = parse_input("clear; pwd && clear");
    assert_eq!(
        r,
        ParseResult::Commands(vec![
            (CommandEnum::Clear, false),
            (CommandEnum::Pwd, false),
            (CommandEnum::Clear, true),
        ])
    );
}

#[test]
fn parse_empty_and_incomplete() {
    assert_eq!(parse_input("   \t "), ParseResult::Commands(vec![]));
    assert_eq!(parse_input("echo 'open"), ParseResult::Incomplete);
    assert_eq!(parse_input("clear; echo \"x"), ParseResult::Incomplete);
}

fn run(line: &str, outcomes: &[bool]) -> Vec<usize> {
    let r = parse_input(line);
    let cmds = match r {
        ParseResult::Commands(c) => c,
        ParseResult::Incomplete => panic!("incomplete"),
    };
    let mut st = ChainState::new();
    let mut ran = Vec::new();
    while let Some(i) = execute_all(&cmds, &mut st) {
        ran.push(i);
        st.record(outcomes[i]);
    }
    ran
}

#[test]
fn chain_and_skips_only_its_command() {
    assert_eq!(run("a && b; c", &[false, true, true]), vec![0, 2]);
    assert_eq!(run("a && b; c", &[true, false, true]), vec![0, 1, 2]);
    assert_eq!(run("a; b && c; d", &[true, false, true, true]), vec![0, 1, 3]);
    assert_eq!(run("a && b && c; d", &[false, true, true, true]), vec![0, 3]);
    assert_eq!(run("a && b; c && d", &[false, true, true, true]), vec![0, 2, 3]);
    assert_eq!(run("a && b; c && d", &[false, true, false, true]), vec![0, 2]);
    assert_eq!(run("a; b && c", &[false, true, true]), vec![0, 1, 2]);
}

#[test]
fn chain_semicolon_and_ampersand_always_continue() {
    assert_eq!(run("a; b & c", &[false, false, false]), vec![0, 1, 2]);
    assert_eq!(run("a && b & c", &[false, true, true]), vec![0, 2]);
    assert_eq!(run("a && b", &[true, true]), vec![0, 1]);
}

#[test]
fn chain_failed_cd_then_echo() {
    // `cd a b` fails (too many arguments); `&& echo x` is skipped; `; echo y` runs.
    let cmds = match parse_input("cd a b && echo x; echo y") {
        ParseResult::Commands(c) => c,
        ParseResult::Incomplete => panic!("incomplete"),
    };
    assert_eq!(cmds.len(), 3);
    let mut st = ChainState::new();
    let mut ran = Vec::new();
    while let Some(i) = execute_all(&cmds, &mut st) {
        ran.push(i);
        st.record(i != 0);
    }
    assert_eq!(ran, vec![0, 2]);
    assert_eq!(cmds[2].0, CommandEnum::Echo(s(&["y"])));
}

#[test]
fn chain_stays_done() {
    let r = parse_input("a");
    let cmds = match r {
        ParseResult::Commands(c) => c,
        _ => unreachable!(),
    };
    let mut st = ChainState::new();
    assert_eq!(execute_all(&cmds, &mut st), Some(0));
    assert_eq!(execute_all(&cmds, &mut st), None);
    assert_eq!(execute_all(&cmds, &mut st), None);
}

#[test]
fn tokens_double_quotes_literal() {
    assert_eq!(parse_tokens("\"a 'b; c && d\""), Ok(vec![(s(&["a 'b; c && d"]), false)]));
    assert_eq!(parse_tokens("\"\""), Ok(vec![]));
}

#[test]
fn tokens_backslash_takes_next_char() {
    for c in [';', '&', ' ', '\'', '"', '\\', 'x', '\u{3000}'] {
        let line: String = ['\\', c].iter().collect();
        assert_eq!(parse_tokens(&line), Ok(vec![(vec![c.to_string()], false)]), "{:?}", line);
    }
}

#[test]
fn tokens_unclosed_forms_are_incomplete() {
    assert_eq!(parse_tokens("'a b ; c"), Err("Incomplete".to_string()));
    assert_eq!(parse_tokens("\"a 'b' ; c"), Err("Incomplete".to_string()));
    assert_eq!(parse_tokens("abc\\"), Err("Incomplete".to_string()));
    assert_eq!(parse_input("ls\\"), ParseResult::Incomplete);
}

#[test]
fn tokens_never_empty() {
    for line in ["'' a \"\"", "; ; a;;b &&", "a '' b", "&& x", "\"\" ; ''"] {
        let cmds = parse_tokens(line).unwrap();
        for (words, _) in &cmds {
            assert!(!words.is_empty(), "{:?}", line);
            assert!(words.iter().all(|w| !w.is_empty()), "{:?}", line);
        }
    }
    assert_eq!(parse_tokens("a '' b"), Ok(vec![(s(&["a", "b"]), false)]));
}

#[test]
fn tokens_plain_words_in_order() {
    assert_eq!(
        parse_tokens("git commit -m msg --amend"),
        Ok(vec![(s(&["git", "commit", "-m", "msg", "--amend"]), false)])
    );
}
