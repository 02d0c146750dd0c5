use mac_shell::history::history_entries;
use mac_shell::editor::{prompt_len, should_record, LineState};
use mac_shell::parser::{CommandEnum, ParseResult};

fn s(v: &[&str]) -> Vec<String> {
    v.iter().map(|x| x.to_string()).collect()
}

#[test]
fn typing_at_the_cursor() {
    let mut st = LineState::new(3);
    assert_eq!((st.buffer.as_str(), st.purline.as_str(), st.history_index, st.continuation), ("", "", 3, false));
    st.insert_char(0, 'a');
    st.insert_char(5, 'c');
    st.insert_char(1, 'b');
    assert_eq!((st.buffer.as_str(), st.purline.as_str()), ("abc", "abc"));
    assert!(st.backspace(2));
    assert_eq!((st.buffer.as_str(), st.purline.as_str()), ("ac", "ac"));
    assert!(!st.backspace(0));
    assert_eq!(st.purline, "ac");
    // Past the end of the line nothing is removed, but the line is redrawn.
    assert!(st.backspace(9));
    assert_eq!(st.purline, "ac");
}

#[test]
fn continuation_lines() {
    let mut h: Vec<String> = Vec::new();
    let mut st = LineState::new(0);
    for c in "echo 'a".chars() {
        st.insert_char(usize::MAX, c);
    }
    let (r, pushed) = st.submit(&mut h);
    assert_eq!(r, ParseResult::Incomplete);
    assert!(!pushed);
    assert_eq!((st.buffer.as_str(), st.purline.as_str(), st.continuation), ("echo 'a\n", "", true));
    st.insert_char(0, '\'');
    st.insert_char(0, 'b');
    assert_eq!((st.buffer.as_str(), st.purline.as_str()), ("echo 'a\nb'", "b'"));
    st.backspace(1);
    assert_eq!((st.buffer.as_str(), st.purline.as_str()), ("echo 'a\n'", "'"));
    let (r, pushed) = st.submit(&mut h);
    assert_eq!(r, ParseResult::Commands(vec![(CommandEnum::Echo(s(&["a\n"])), false)]));
    assert!(!pushed);
    assert!(h.is_empty());
    assert_eq!((st.buffer.as_str(), st.continuation, st.history_index), ("", false, 0));
}

#[test]
fn submit_records_history() {
    let mut h = s(&["ls"]);
    let mut st = LineState::new(1);
    st.insert_char(0, 'l');
    st.insert_char(1, 's');
    let (r, pushed) = st.submit(&mut h);
    assert_eq!(r, ParseResult::Commands(vec![(CommandEnum::Ls(vec![]), false)]));
    assert!(!pushed);
    st.insert_char(0, 'p');
    st.insert_char(1, 'w');
    st.insert_char(2, 'd');
    let (_, pushed) = st.submit(&mut h);
    assert!(pushed);
    assert_eq!(h, s(&["ls", "pwd"]));
    assert_eq!(st.history_index, 2);
    let (r, pushed) = st.submit(&mut h);
    assert_eq!((r, pushed), (ParseResult::Commands(vec![]), false));
}

#[test]
fn completion_extends_line() {
    let mut st = LineState::new(0);
    for c in "ls sr".chars() {
        st.insert_char(usize::MAX, c);
    }
    st.apply_completion(&"src/".to_string());
    assert_eq!((st.buffer.as_str(), st.purline.as_str()), ("ls src/", "ls src/"));
}

#[test]
fn history_navigation() {
    let h = s(&["a", "b"]);
    let mut st = LineState::new(2);
    assert!(st.history_up(&h));
    assert_eq!((st.buffer.as_str(), st.history_index), ("b", 1));
    assert!(st.history_up(&h));
    assert_eq!((st.buffer.as_str(), st.purline.as_str(), st.history_index), ("a", "a", 0));
    assert!(!st.history_up(&h));
    assert!(st.history_down(&h));
    assert_eq!(st.buffer, "b");
    assert!(st.history_down(&h));
    assert_eq!((st.buffer.as_str(), st.history_index), ("", 2));
    assert!(!st.history_down(&h));
}

#[test]
fn interrupt_and_search_result() {
    let mut h: Vec<String> = Vec::new();
    let mut st = LineState::new(0);
    st.insert_char(0, 'l');
    st.insert_char(1, 's');
    assert!(st.interrupt(&mut h));
    assert_eq!(h, s(&["ls"]));
    assert_eq!((st.buffer.as_str(), st.history_index, st.continuation), ("", 1, false));
    st.insert_char(0, ' ');
    assert!(!st.interrupt(&mut h));
    assert_eq!(h, s(&["ls"]));
    st.take_search_result(Some("cd /".to_string()), 5);
    assert_eq!((st.buffer.as_str(), st.purline.as_str(), st.history_index), ("cd /", "cd /", 5));
    st.take_search_result(None, 1);
    assert_eq!((st.buffer.as_str(), st.history_index), ("cd /", 1));
}

#[test]
fn recording_rule_and_prompt() {
    assert!(should_record(&"ls".to_string()));
    assert!(!should_record(&"  \t".to_string()));
    assert!(!should_record(&"a\nb".to_string()));
    assert_eq!(prompt_len("/home", false), 7);
    assert_eq!(prompt_len("/hömé", false), 7);
    assert_eq!(prompt_len("/home", true), 2);
}

#[test]
fn saved_entries_come_back() {
    let mut h: Vec<String> = Vec::new();
    let mut st = LineState::new(0);
    for line in ["ls -l", "   ", "cd /tmp", "echo 'a", "b'", "pwd"] {
        for c in line.chars() {
            st.insert_char(usize::MAX, c);
        }
        st.submit(&mut h);
    }
    assert_eq!(h, s(&["ls -l", "cd /tmp", "pwd"]));
    let file: String = h.iter().map(|e| format!("{}\n", e)).collect();
    let lines: Vec<String> = file.lines().map(|l| l.to_string()).collect();
    assert_eq!(history_entries(&lines), h);
}

#[test]
fn backspace_after_typing_restores_line() {
    for cursor in [0usize, 1, 2, 3, 7] {
        let mut st = LineState::new(0);
        for c in "abc".chars() {
            st.insert_char(usize::MAX, c);
        }
        st.insert_char(cursor, 'X');
        let at = cursor.min(3);
        assert!(st.backspace(at + 1));
        assert_eq!((st.buffer.as_str(), st.purline.as_str()), ("abc", "abc"), "cursor {}", cursor);
    }
}
