use mac_shell::completion::{
    augmented_path, complete, completion_source, full_path, last_word, CompletionSource,
};

fn found(v: &[(&str, bool)]) -> Vec<(String, bool)> {
    v.iter().map(|(n, b)| (n.to_string(), *b)).collect()
}

fn s(v: &[&str]) -> Vec<String> {
    v.iter().map(|x| x.to_string()).collect()
}

#[test]
fn last_word_is_after_last_ascii_space() {
    assert_eq!(last_word("ls -l fo"), "fo");
    assert_eq!(last_word("ls "), "");
    assert_eq!(last_word(""), "");
    assert_eq!(last_word("cat a\tb"), "b");
    // A non-ASCII space does not end a word here.
    assert_eq!(last_word("x a\u{3000}b"), "a\u{3000}b");
}

#[test]
fn source_command_positions() {
    assert_eq!(completion_source("l"), CompletionSource::Commands);
    assert_eq!(completion_source(""), CompletionSource::Commands);
    assert_eq!(completion_source("   gi"), CompletionSource::Commands);
    assert_eq!(completion_source("echo a; gi"), CompletionSource::Commands);
    assert_eq!(completion_source("echo a &&  x"), CompletionSource::Commands);
    assert_eq!(completion_source("echo a & x"), CompletionSource::Commands);
    assert_eq!(completion_source("sudo ap"), CompletionSource::Commands);
    assert_eq!(completion_source("ls; sudo; env ap"), CompletionSource::Commands);
    assert_eq!(completion_source("nohup; x"), CompletionSource::Commands);
}

#[test]
fn source_directories() {
    assert_eq!(completion_source("ls sr"), CompletionSource::Entries(".".to_string()));
    assert_eq!(completion_source("ls "), CompletionSource::Entries(".".to_string()));
    assert_eq!(completion_source("ls src/ma"), CompletionSource::Entries("src/".to_string()));
    assert_eq!(completion_source("cat /usr/lo"), CompletionSource::Entries("/usr/".to_string()));
    assert_eq!(completion_source("sudoku x"), CompletionSource::Entries(".".to_string()));
}

#[test]
fn complete_commands_from_builtins_and_path() {
    let f = found(&[("ls", true), ("lsblk", true), ("lz", false)]);
    assert_eq!(complete("l", &f), s(&["ls", "lsblk"]));
    assert_eq!(complete("e", &found(&[])), s(&["echo", "exit"]));
    assert_eq!(complete("q", &found(&[])), Vec::<String>::new());
    let all = complete("", &found(&[("zz", true)]));
    assert_eq!(
        all,
        s(&["cat", "cd", "clear", "cp", "echo", "exit", "ls", "mkdir", "mv", "pwd", "rm", "zz"])
    );
}

#[test]
fn complete_commands_any_executable_counts() {
    assert_eq!(complete("xy", &found(&[("xyz", true), ("xyz", false)])), s(&["xyz"]));
    assert_eq!(complete("fo", &found(&[("foo", false), ("foo", true)])), s(&["foo"]));
    assert_eq!(complete("fo", &found(&[("foo", false), ("foo", false)])), Vec::<String>::new());
    assert_eq!(complete("l", &found(&[("ls", true), ("ls", true)])), s(&["ls"]));
}

#[test]
fn complete_paths() {
    let f = found(&[("src", true), ("setup.py", false), (".secret", false), ("main.rs", false)]);
    assert_eq!(complete("cat s", &f), s(&["setup.py", "src/"]));
    assert_eq!(complete("cat .s", &f), s(&[".secret"]));
    assert_eq!(complete("cat ", &f), s(&["main.rs", "setup.py", "src/"]));
    let g = found(&[("foo", false), ("fa", true)]);
    assert_eq!(complete("cat dir/f", &g), s(&["dir/fa/", "dir/foo"]));
}

#[test]
fn completions_extend_the_word() {
    let f = found(&[("alpha", true), ("beta", false), ("al", true), ("ALX", true)]);
    for line in ["a", "cat a", "cat d/a", "sudo a", "ls; al", "cat "] {
        let w = last_word(line).to_string();
        for c in complete(line, &f) {
            assert!(c.starts_with(&w), "{} does not extend {}", c, w);
        }
    }
}

#[test]
fn search_path_adds_missing_system_dirs() {
    assert_eq!(
        full_path("/usr/bin:/home/u/bin"),
        "/usr/bin:/home/u/bin:/usr/local/sbin:/usr/local/bin:/usr/sbin:/sbin:/bin"
    );
    assert_eq!(full_path(""), ":/usr/local/sbin:/usr/local/bin:/usr/sbin:/usr/bin:/sbin:/bin");
    let all = "/usr/local/sbin:/usr/local/bin:/usr/sbin:/usr/bin:/sbin:/bin";
    assert_eq!(full_path(all), all);
    assert_eq!(augmented_path(all), all);
    assert_eq!(
        augmented_path("/usr/bin:/home/u/bin"),
        "/usr/bin:/home/u/bin:/usr/local/sbin:/usr/local/bin:/usr/sbin:/sbin:/bin"
    );
}

#[test]
fn spawned_path_is_search_path() {
    for base in ["", "/bin", "/x:/y", "/usr/sbin::/opt"] {
        assert_eq!(augmented_path(base), full_path(base), "PATH={:?}", base);
    }
}

#[test]
fn search_path_has_no_repeats() {
    let tail = "/usr/local/sbin:/usr/local/bin:/usr/sbin:/usr/bin:/sbin:/bin";
    assert_eq!(full_path("/a:/a"), format!("/a:{}", tail));
    assert_eq!(full_path("/b:/a:/b:/bin:/a"), "/b:/a:/bin:/usr/local/sbin:/usr/local/bin:/usr/sbin:/usr/bin:/sbin");
    assert_eq!(full_path(":"), format!(":{}", tail));
    for base in ["/a:/a", "x:y:x::", "/bin:/sbin:/bin", ""] {
        let p = full_path(base);
        let dirs: Vec<&str> = p.split(':').collect();
        let mut sorted = dirs.clone();
        sorted.sort();
        sorted.dedup();
        assert_eq!(sorted.len(), dirs.len(), "{}", p);
    }
    // Spawned commands keep the user's PATH as given.
    assert_eq!(augmented_path("/a:/a"), format!("/a:/a:{}", tail));
}

#[test]
fn completions_sorted_and_distinct() {
    let f = found(&[("zeta", true), ("echo", true), ("ls", true), ("ls", true), ("alpha", true)]);
    let c = complete("", &f);
    let mut sorted = c.clone();
    sorted.sort();
    sorted.dedup();
    assert_eq!(c, sorted);
    let p = complete("cat ", &found(&[("b", false), ("a", true), ("c", false)]));
    assert_eq!(p, s(&["a/", "b", "c"]));
}

#[test]
fn spawned_path_holds_system_dirs() {
    for base in ["", "/usr/bin", "/opt/x:/sbin", "a::b"] {
        let p = augmented_path(base);
        let dirs: Vec<&str> = p.split(':').collect();
        let user: Vec<&str> = base.split(':').collect();
        assert_eq!(&dirs[..user.len()], &user[..]);
        for d in ["/usr/local/sbin", "/usr/local/bin", "/usr/sbin", "/usr/bin", "/sbin", "/bin"] {
            assert!(dirs.contains(&d), "{} missing from {}", d, p);
        }
    }
}
