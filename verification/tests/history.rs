use mac_shell::history::history_entries;
use mac_shell::history::{
    find_in_history, push_history, SearchAction, SearchKey, SearchState,
};

fn s(v: &[&str]) -> Vec<String> {
    v.iter().map(|x| x.to_string()).collect()
}

#[test]
fn push_skips_repeat_of_last() {
    let mut h: Vec<String> = Vec::new();
    assert!(push_history(&mut h, "ls".to_string()));
    assert!(!push_history(&mut h, "ls".to_string()));
    assert!(push_history(&mut h, "pwd".to_string()));
    assert!(push_history(&mut h, "ls".to_string()));
    assert_eq!(h, s(&["ls", "pwd", "ls"]));
}

#[test]
fn find_counts_matches_from_most_recent() {
    let h = s(&["ls", "cd /", "ls -l"]);
    assert_eq!(find_in_history(&h, "ls", 0), Some(2));
    assert_eq!(find_in_history(&h, "ls", 1), Some(0));
    assert_eq!(find_in_history(&h, "ls", 2), None);
    assert_eq!(find_in_history(&h, "cd", 0), Some(1));
    assert_eq!(find_in_history(&h, "zz", 0), None);
}

#[test]
fn find_empty_query_walks_back() {
    let h = s(&["a", "b", "c"]);
    assert_eq!(find_in_history(&h, "", 0), Some(2));
    assert_eq!(find_in_history(&h, "", 2), Some(0));
    assert_eq!(find_in_history(&h, "", 3), None);
    assert_eq!(find_in_history(&Vec::new(), "", 0), None);
}

#[test]
fn search_session() {
    let h = s(&["ls", "cd /", "ls -l"]);
    let mut st = SearchState::new();
    assert_eq!(st.shown(&h), Some(2));
    assert_eq!(st.step(&h, SearchKey::Char('l', false)), SearchAction::Continue);
    assert_eq!(st.query, "l");
    assert_eq!(st.shown(&h), Some(2));
    assert_eq!(st.step(&h, SearchKey::Char('r', true)), SearchAction::Continue);
    assert_eq!(st.skip, 1);
    assert_eq!(st.shown(&h), Some(0));
    assert_eq!(st.step(&h, SearchKey::Enter), SearchAction::Accept(Some(0)));
}

#[test]
fn search_typing_resets_skip() {
    let h = s(&["ls", "cd /", "ls -l"]);
    let mut st = SearchState::new();
    st.step(&h, SearchKey::Char('r', true));
    st.step(&h, SearchKey::Char('r', true));
    assert_eq!(st.skip, 2);
    st.step(&h, SearchKey::Char('c', false));
    assert_eq!((st.query.as_str(), st.skip), ("c", 0));
    st.step(&h, SearchKey::Char('r', true));
    st.step(&h, SearchKey::Backspace);
    assert_eq!((st.query.as_str(), st.skip), ("", 0));
    st.step(&h, SearchKey::Backspace);
    assert_eq!((st.query.as_str(), st.skip), ("", 0));
}

#[test]
fn search_endings() {
    let h = s(&["ls"]);
    let mut st = SearchState::new();
    assert_eq!(st.step(&h, SearchKey::Esc), SearchAction::Cancel);
    assert_eq!(st.step(&h, SearchKey::Char('c', true)), SearchAction::Interrupt);
    assert_eq!(st.step(&h, SearchKey::Other), SearchAction::Accept(Some(0)));
    assert_eq!(st.step(&h, SearchKey::Char('x', true)), SearchAction::Accept(Some(0)));
    st.step(&h, SearchKey::Char('q', false));
    assert_eq!(st.step(&h, SearchKey::Enter), SearchAction::Accept(None));
}

#[test]
fn history_file_lines() {
    assert_eq!(history_entries(&s(&["ls", "", "  ", "cd /", "\t"])), s(&["ls", "cd /"]));
    assert_eq!(history_entries(&s(&[" x "])), s(&[" x "]));
}

#[test]
fn search_moves_to_older_matches() {
    let h = s(&["git a", "ls", "git b", "git c", "cd"]);
    let mut prev: Option<usize> = None;
    for skip in 0..5 {
        match find_in_history(&h, "git", skip) {
            Some(i) => {
                assert!(h[i].contains("git"));
                if let Some(p) = prev {
                    assert!(i < p);
                } else {
                    assert!(h[i + 1..].iter().all(|e| !e.contains("git")));
                }
                prev = Some(i);
            }
            None => assert!(skip >= 3),
        }
    }
}

#[test]
fn loaded_entries_are_never_blank() {
    let lines = s(&["", " ", "\t\t", "ls", " pwd ", "\u{3000}"]);
    let h = history_entries(&lines);
    assert_eq!(h, s(&["ls", " pwd "]));
    assert!(h.iter().all(|e| !e.trim().is_empty()));
}
